pub mod assemble;
pub mod board;
pub mod commit;
pub mod dsn;
pub mod grid;
pub mod laws;
pub mod reader;
pub mod reimport;
pub mod reread;
pub mod rewrite;
pub mod routed_board;
pub mod router;
pub mod search;
pub mod serialise;
pub mod sexpr;
pub mod steiner;
pub mod text;
