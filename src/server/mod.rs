pub mod route_table;
