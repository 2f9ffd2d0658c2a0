//! Kaprekar's routine on natural numbers of any size: repeated subtraction of the
//! ascending arrangement of a number's decimal digits from the descending one, with
//! cycle detection, a stop at the known fixed points, and the record format of a sweep.

pub mod natural;
pub mod routine;
pub mod record;
pub mod three_digits;
pub mod four_digits;
