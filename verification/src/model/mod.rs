pub mod route;
