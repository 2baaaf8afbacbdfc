pub mod roll_pi;
