pub mod simple_c;
