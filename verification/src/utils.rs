pub mod vec_func;
