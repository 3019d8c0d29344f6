use exercises::circular_buffer::{CircularBuffer, Error as BufferError};
use exercises::clock::Clock;
use exercises::poker::{Card, Suit, Value};
use exercises::resistor_color::{color_to_value, value_to_color_string, ResistorColor};
use exercises::reverse_string::{reverse, Clock as PlainClock};
use exercises::rpn_calculator::{evaluate, CalculatorInput as C};

#[test]
fn test_neg_hours() {
    assert_eq!(PlainClock::new(-26, 1).add_minutes(121), PlainClock::new(-24, 1).add_minutes(1));
}

#[test]
fn minutes_roll_over() {
    assert_eq!(PlainClock::new(0, 160), PlainClock::new(2, 40));
}

#[test]
fn plain_clock_keeps_sign_of_minutes() {
    assert_ne!(PlainClock::new(0, -1), PlainClock::new(23, 59));
    assert_eq!(PlainClock::new(25, 0), PlainClock::new(1, 0));
}

#[test]
fn reverse_strings() {
    assert_eq!(reverse(""), "");
    assert_eq!(reverse("robot"), "tobor");
    assert_eq!(reverse("Ramen"), "nemaR");
    assert_eq!(reverse("wood\u{e9}"), "\u{e9}doow");
}

#[test]
fn clock_shows_normalized_time() {
    assert_eq!(Clock::new(8, 0).to_string(), "08:00");
    assert_eq!(Clock::new(25, 160).to_string(), "03:40");
    assert_eq!(Clock::new(-1, 15).to_string(), "23:15");
    assert_eq!(Clock::new(1, -4820).to_string(), "16:40");
    assert_eq!(Clock::new(10, 3).add_minutes(-70).to_string(), "08:53");
    assert_eq!(Clock::new(0, 0).add_minutes(1440).to_string(), "00:00");
}

#[test]
fn clocks_compare_by_time_shown() {
    assert_eq!(Clock::new(15, 37), Clock::new(15, 37));
    assert_eq!(Clock::new(10, 37), Clock::new(34, 37));
    assert_eq!(Clock::new(-2, -40), Clock::new(21, 20));
    assert_ne!(Clock::new(15, 36), Clock::new(15, 37));
}

#[test]
fn rpn_evaluation() {
    assert_eq!(evaluate(&[]), None);
    assert_eq!(evaluate(&[C::Value(6)]), Some(6));
    assert_eq!(evaluate(&[C::Value(2), C::Value(2), C::Add]), Some(4));
    assert_eq!(evaluate(&[C::Value(7), C::Value(11), C::Subtract]), Some(-4));
    assert_eq!(evaluate(&[C::Value(6), C::Value(9), C::Multiply]), Some(54));
    assert_eq!(evaluate(&[C::Value(57), C::Value(19), C::Divide]), Some(3));
    assert_eq!(evaluate(&[C::Value(1), C::Add]), None);
    assert_eq!(evaluate(&[C::Add, C::Value(1)]), None);
    assert_eq!(evaluate(&[C::Value(1), C::Value(2)]), Some(2));
    assert_eq!(
        evaluate(&[C::Value(4), C::Value(8), C::Add, C::Value(7), C::Value(5), C::Subtract, C::Divide]),
        Some(6)
    );
}

#[test]
fn resistor_colors() {
    assert_eq!(color_to_value(ResistorColor::Black), 0);
    assert_eq!(color_to_value(ResistorColor::Orange), 3);
    assert_eq!(color_to_value(ResistorColor::White), 9);
    assert_eq!(value_to_color_string(7), "Violet");
    assert_eq!(value_to_color_string(0), "Black");
    assert_eq!(value_to_color_string(10), "value out of range");
}

#[test]
fn cards_and_values() {
    let card = Card::new(Suit::Spade, Value::Queen);
    assert_eq!(card.suit(), Suit::Spade);
    assert_eq!(card.value(), Value::Queen);
    assert_eq!(Value::Ace.value(), 14);
    assert_eq!(Value::Two.value(), 2);
    assert!(Value::Ace > Value::King);
    assert_eq!(Suit::values(), [Suit::Heart, Suit::Diamond, Suit::Club, Suit::Spade]);
    assert_eq!(Value::values()[0], Value::Ace);
    assert_eq!(Value::values()[12], Value::King);
}

#[test]
fn circular_buffer_keeps_order() {
    let mut b = CircularBuffer::new(2);
    assert_eq!(b.read(), Err(BufferError::EmptyBuffer));
    assert_eq!(b.write('1'), Ok(()));
    assert_eq!(b.write('2'), Ok(()));
    assert_eq!(b.write('3'), Err(BufferError::FullBuffer));
    assert_eq!(b.read(), Ok('1'));
    assert_eq!(b.write('3'), Ok(()));
    assert_eq!(b.read(), Ok('2'));
    assert_eq!(b.read(), Ok('3'));
    assert_eq!(b.read(), Err(BufferError::EmptyBuffer));
}

#[test]
fn circular_buffer_overwrite_and_clear() {
    let mut b = CircularBuffer::new(3);
    b.write(1).unwrap();
    b.write(2).unwrap();
    b.overwrite(3);
    b.overwrite(4);
    assert_eq!(b.read(), Ok(2));
    assert_eq!(b.read(), Ok(3));
    assert_eq!(b.read(), Ok(4));
    b.write(5).unwrap();
    b.clear();
    assert_eq!(b.read(), Err(BufferError::EmptyBuffer));
    b.write(6).unwrap();
    assert_eq!(b.read(), Ok(6));
}

#[test]
fn zero_capacity_buffer_is_full() {
    let mut b: CircularBuffer<u8> = CircularBuffer::new(0);
    assert_eq!(b.write(1), Err(BufferError::FullBuffer));
    assert_eq!(b.read(), Err(BufferError::EmptyBuffer));
}
