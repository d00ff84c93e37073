pub mod direcional;
pub mod initialization;
