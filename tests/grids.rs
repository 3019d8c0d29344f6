use exercises::minesweeper::annotate;
use exercises::ocr_numbers::{convert, Digit, Error as OcrError};
use exercises::rectangles::count;

#[test]
fn from() {
    let s = " _ | || |   ";
    let d = Digit::from(s);
    println!("{d:?}");

    let s = " _ \n".to_string() + "|_ \n" + "|_|\n" + "   \n";
    let d = Digit::from(s.as_ref());
    println!("{d:?}");
    assert_eq!(d.to_string(), "6");
}

#[test]
fn to_string() {
    let zero = Digit::from(" _ | ||_|   ");
    assert_eq!(zero.to_string(), "0");
    let one = Digit::from("     |  |   ");
    assert_eq!(one.to_string(), "1");
    let two = Digit::from(" _  _||_    ");
    assert_eq!(two.to_string(), "2");
    let three = Digit::from(" _  _| _|   ");
    assert_eq!(three.to_string(), "3");
    let four = Digit::from("   |_|  |   ");
    assert_eq!(four.to_string(), "4");
    let five = Digit::from(" _ |_  _|   ");
    assert_eq!(five.to_string(), "5");
    let six = Digit::from(" _ |_ |_|   ");
    assert_eq!(six.to_string(), "6");
    let seven = Digit::from(" _   |  |   ");
    assert_eq!(seven.to_string(), "7");
    let eight = Digit::from(" _ |_||_|   ");
    assert_eq!(eight.to_string(), "8");
    let nine = Digit::from(" _ |_| _|   ");
    assert_eq!(nine.to_string(), "9");
    let blank = Digit::from("            ");
    assert_eq!(blank.to_string(), "?");
    let garble = Digit::from(" _  _||_ |  ");
    assert_eq!(garble.to_string(), "?");
}

#[test]
fn ocr_reads_digits() {
    let input = " _ \n| |\n|_|\n   ";
    assert_eq!(convert(input), Ok("0".to_string()));
    let input = "    _  _     _  _  _  _  _  _ \n  | _| _||_||_ |_   ||_||_|| |\n  ||_  _|  | _||_|  ||_| _||_|\n                              ";
    assert_eq!(convert(input), Ok("1234567890".to_string()));
    let input = "   \n  |\n  |\n   \n _ \n _|\n|_ \n   ";
    assert_eq!(convert(input), Ok("1,2".to_string()));
    let input = "   \n  _\n  |\n   ";
    assert_eq!(convert(input), Ok("?".to_string()));
}

#[test]
fn ocr_rejects_bad_shapes() {
    assert_eq!(convert(" _ \n| |\n   "), Err(OcrError::InvalidRowCount(3)));
    assert_eq!(convert("    \n   |\n   |\n    "), Err(OcrError::InvalidColumnCount(4)));
    assert_eq!(convert(""), Err(OcrError::InvalidRowCount(1)));
}

#[test]
fn minesweeper_boards() {
    assert_eq!(annotate(&[]), Vec::<String>::new());
    assert_eq!(annotate(&[""]), vec![String::new()]);
    assert_eq!(annotate(&["   ", " * ", "   "]), vec!["111", "1*1", "111"]);
    assert_eq!(annotate(&["***", "* *", "***"]), vec!["***", "*8*", "***"]);
    assert_eq!(annotate(&[" * * "]), vec!["1*2*1"]);
    assert_eq!(
        annotate(&[" *  * ", "  *   ", "    * ", "   * *", " *  * ", "      "]),
        vec!["1*22*1", "12*322", " 123*2", "112*4*", "1*22*2", "111111"]
    );
}

#[test]
fn rectangles_none() {
    assert_eq!(count(&[]), 0);
    assert_eq!(count(&[""]), 0);
    assert_eq!(count(&[" "]), 0);
}

#[test]
fn rectangles_simple() {
    assert_eq!(count(&["+-+", "| |", "+-+"]), 1);
    assert_eq!(count(&["  +-+", "  | |", "+-+-+", "| |  ", "+-+  "]), 2);
    assert_eq!(count(&["  +-+", "  | |", "+-+-+", "| | |", "+-+-+"]), 5);
    assert_eq!(count(&["+--+", "+--+"]), 1);
    assert_eq!(count(&["++", "||", "++"]), 1);
    assert_eq!(count(&["++", "++"]), 1);
    assert_eq!(count(&["  +-+", "    |", "+-+-+", "| | -", "+-+-+"]), 1);
}

#[test]
fn rectangles_larger() {
    assert_eq!(
        count(&["+------+----+", "|      |    |", "+---+--+    |", "|   |       |", "+---+-------+"]),
        3
    );
    assert_eq!(
        count(&[
            "+---+--+----+",
            "|   +--+----+",
            "+---+--+    |",
            "|   +--+----+",
            "+---+--+--+-+",
            "+---+--+--+-+",
            "+------+  | |",
            "          +-+",
        ]),
        60
    );
}
