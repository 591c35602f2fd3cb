//! A small verified library: Fibonacci prefixes, decimal palindromes,
//! order selection, character frequency, string-keyed maps, and an
//! append-only phone book whose insertion rules are proved invariant.
mod assoc;
mod freq;
mod numbers;
mod phone;
mod select;
mod strutil;

pub use assoc::hash_to_array;
pub use assoc::lex_lt;
pub use assoc::unique_keys;
pub use assoc::zip_hash;
pub use assoc::zipped;
pub use assoc::StrMap;
pub use freq::cnt_at;
pub use freq::count_ch;
pub use freq::freq;
pub use numbers::digits;
pub use numbers::fib;
pub use numbers::fib_spec;
pub use numbers::is_palindrome;
pub use numbers::lemma_fib_fits_u32;
pub use numbers::lemma_fib_mono;
pub use numbers::palindrome;
pub use phone::ac_names;
pub use phone::add_accepted;
pub use phone::entries_wf;
pub use phone::is_digit;
pub use phone::lemma_ac_names_complete;
pub use phone::lemma_duplicate_name_rejected;
pub use phone::lemma_listed_number_exclusive;
pub use phone::lemma_malformed_number_rejected;
pub use phone::lemma_unlisted_name_hidden;
pub use phone::listed_match;
pub use phone::listed_num_match;
pub use phone::listed_number_present;
pub use phone::name_present;
pub use phone::valid_number;
pub use phone::PhoneBook;
pub use phone::PhoneEntry;
pub use select::lemma_sorted_desc_unique;
pub use select::nthmax;
pub use select::sorted_desc;
pub use strutil::dash_prefixed;
