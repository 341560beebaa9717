pub mod sword;
