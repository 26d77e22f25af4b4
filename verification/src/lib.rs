//! Reconciles a receipt's line items into merchandise, gratuity and tax.
//!
//! Records come in as a flat list; the classifier routes each one into one
//! of the three groups, the reconciler makes merchandise prices
//! tax-exclusive (redistributing a declared tax, or deriving one at the
//! statutory rate), and the summarizer aggregates the group totals. Prices
//! are fixed-point: whole counts of ten-thousandths of the currency unit,
//! so every step of the arithmetic is exact and proved.

pub mod invoice;
pub mod product;
pub mod reader;
