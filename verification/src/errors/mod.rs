pub mod report;
pub mod syntax_err;
