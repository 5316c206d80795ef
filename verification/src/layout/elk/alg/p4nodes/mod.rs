pub mod bk;
