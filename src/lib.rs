//! Small verified programs: a stack-machine interpreter with user-defined
//! words, a network of reactive cells, and exercises on numbers, text, grids
//! and card games.

pub mod anagram;
pub mod armstrong_numbers;
pub mod beer_song;
pub mod bob;
pub mod circular_buffer;
pub mod clock;
pub mod forth;
pub mod grains;
pub mod leap;
pub mod letter_frequency;
pub mod luhn;
pub mod minesweeper;
pub mod nth_prime;
pub mod ocr_numbers;
pub mod poker;
pub mod prime_factors;
pub mod proverb;
pub mod raindrops;
pub mod react;
pub mod rectangles;
pub mod resistor_color;
pub mod reverse_string;
pub mod role_playing_game;
pub mod rpn_calculator;
pub mod sum_of_multiples;
pub mod text;
