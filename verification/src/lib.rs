//! A small verified utility library: an in-memory phone book with validated
//! insertion and listed/unlisted-aware lookups, together with a handful of
//! standalone numeric and string utilities.

mod book;
mod fibs;
mod freq;
mod nthmax;
mod palindrome;
mod strmap;
mod text;

pub use book::can_add;
pub use book::has_listed_number;
pub use book::has_name;
pub use book::is_digit;
pub use book::lemma_add_duplicate_name;
pub use book::lemma_add_listed_collision;
pub use book::lemma_add_unlisted_coexists;
pub use book::lemma_lookup_by_num_unlisted;
pub use book::lemma_lookup_unlisted;
pub use book::lemma_names_ac_filters;
pub use book::lookup_name_spec;
pub use book::lookup_num_spec;
pub use book::names_ac_spec;
pub use book::valid_number;
pub use book::wf_entries;
pub use book::EntryView;
pub use book::PhoneBook;
pub use book::PhoneEntry;
pub use fibs::fib;
pub use fibs::fib_nat;
pub use fibs::lemma_fib_mono;
pub use fibs::lemma_fib_seq;
pub use freq::cnt;
pub use freq::freq;
pub use freq::is_winner_at;
pub use freq::lemma_winner_most_frequent;
pub use freq::lemma_winner_unique;
pub use freq::running;
pub use nthmax::count_ge;
pub use nthmax::count_gt;
pub use nthmax::lemma_nthmax_unique;
pub use nthmax::nthmax;
pub use nthmax::sorted_asc;
pub use palindrome::dec_digits;
pub use palindrome::is_palindrome;
pub use palindrome::lemma_reads_same_is_reverse;
pub use palindrome::lemma_small_palindrome;
pub use palindrome::reads_same_both_ways;
pub use strmap::hash_to_array;
pub use strmap::lemma_pairs_map_props;
pub use strmap::pair_views;
pub use strmap::pairs_map;
pub use strmap::sorted_by_keys;
pub use strmap::str_views;
pub use strmap::unique_keys;
pub use strmap::zip_hash;
pub use strmap::zip_map_spec;
pub use strmap::StrMap;
pub use text::lemma_lex_connex;
pub use text::lemma_lex_trans;
pub use text::lex_lt;
pub use text::prefix_of;
pub use text::str_eq;
pub use text::str_lt;
pub use text::str_prefix;
