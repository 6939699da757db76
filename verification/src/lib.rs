//! Detection and reversible masking of sensitive data in audit documents.
pub mod column_matcher;
pub mod commands;
pub mod docx;
pub mod excel;
pub mod input;
pub mod llm;
pub mod pdf;
pub mod report;
pub mod roundtrip;
pub mod scanner;
pub mod text;
pub mod tokenizer;
pub mod txt;
