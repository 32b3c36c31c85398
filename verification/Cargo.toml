[package]
name = "todo_manager"
version = "0.1.0"
edition = "2021"
publish = false

[dependencies]
ansi_term = "*"
chrono = "*"
prettytable-rs = "*"
structopt = "*"
todo_lib = "*"
todo-txt = "*"
