pub mod address;
pub mod clients;
pub mod decimal;
pub mod exchange;
pub mod framing;
pub mod grid;
pub mod parser;
pub mod problem;
pub mod problem_handler;
pub mod problems;
pub mod random;
pub mod runner;
pub mod seeding;
pub mod solver;
pub mod solvers;
pub mod symmetry;
pub mod text;
pub mod user;
pub mod user_repo;
