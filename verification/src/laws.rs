//! What the library promises as a whole: relations between what goes into its operations and
//! what comes out of them.

pub mod archives;
pub mod columns;
pub mod content;
pub mod dates;
pub mod documents;
pub mod exports;
pub mod headings;
pub mod methods;
pub mod namespaces;
pub mod numbers;
pub mod row_sets;
pub mod rows;
pub mod search;
pub mod separated;
pub mod sheet_texts;
pub mod sort_order;
pub mod white_space;
pub mod whole;
pub mod written;
