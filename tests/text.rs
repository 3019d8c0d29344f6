use exercises::anagram::anagrams_for;
use exercises::beer_song::{sing, verse};
use exercises::bob::reply;
use exercises::luhn::is_valid;
use exercises::proverb::build_proverb;
use exercises::role_playing_game::{can_construct_note, Player};

#[test]
fn luhn_codes() {
    assert!(!is_valid("1"));
    assert!(!is_valid("0"));
    assert!(is_valid("059"));
    assert!(is_valid("4539 3195 0343 6467"));
    assert!(!is_valid("8273 1232 7352 0569"));
    assert!(!is_valid("055a 444 285"));
    assert!(is_valid("0000 0"));
    assert!(is_valid(" 0 0 "));
    assert!(!is_valid("055-444-285"));
    assert!(is_valid("091"));
}

#[test]
fn reviving_players() {
    let dead = Player { health: 0, mana: Some(3), level: 34 };
    let revived = dead.revive().unwrap();
    assert_eq!(revived.health, 100);
    assert_eq!(revived.mana, Some(100));
    assert_eq!(revived.level, 34);
    let young = Player { health: 0, mana: None, level: 3 };
    assert_eq!(young.revive().unwrap().mana, None);
    let alive = Player { health: 1, mana: None, level: 12 };
    assert!(alive.revive().is_none());
}

#[test]
fn casting_spells() {
    let mut wizard = Player { health: 123, mana: Some(30), level: 18 };
    assert_eq!(wizard.cast_spell(10), 10);
    assert_eq!(wizard.mana, Some(10));
    assert_eq!(wizard.cast_spell(10), 0);
    assert_eq!(wizard.mana, Some(0));
    let mut fighter = Player { health: 50, mana: None, level: 5 };
    assert_eq!(fighter.cast_spell(20), 0);
    assert_eq!(fighter.health, 30);
    assert_eq!(fighter.cast_spell(40), 0);
    assert_eq!(fighter.health, 0);
}

#[test]
fn notes_from_magazines() {
    let magazine = ["two", "times", "three", "is", "not", "four"];
    assert!(!can_construct_note(&magazine, &["two", "times", "two", "is", "four"]));
    let magazine = ["Astronomer", "Amy", "Bob", "Bob"];
    assert!(can_construct_note(&magazine, &["Bob", "Bob", "Amy"]));
    assert!(!can_construct_note(&magazine, &["bob"]));
    assert!(can_construct_note(&magazine, &[]));
    assert!(!can_construct_note(&[], &["a"]));
}

#[test]
fn proverbs() {
    assert_eq!(build_proverb(&[]), "");
    assert_eq!(build_proverb(&["nail"]), "And all for the want of a nail.");
    assert_eq!(
        build_proverb(&["nail", "shoe", "horse"]),
        "For want of a nail the shoe was lost.\nFor want of a shoe the horse was lost.\nAnd all for the want of a nail."
    );
}

#[test]
fn beer_verses() {
    assert_eq!(
        verse(0),
        "No more bottles of beer on the wall, no more bottles of beer.\nGo to the store and buy some more, 99 bottles of beer on the wall.\n"
    );
    assert_eq!(
        verse(1),
        "1 bottle of beer on the wall, 1 bottle of beer.\nTake it down and pass it around, no more bottles of beer on the wall.\n"
    );
    assert_eq!(
        verse(2),
        "2 bottles of beer on the wall, 2 bottles of beer.\nTake one down and pass it around, 1 bottle of beer on the wall.\n"
    );
    assert_eq!(
        verse(8),
        "8 bottles of beer on the wall, 8 bottles of beer.\nTake one down and pass it around, 7 bottles of beer on the wall.\n"
    );
    assert_eq!(
        verse(10),
        "10 bottles of beer on the wall, 10 bottles of beer.\nTake one down and pass it around, 9 bottles of beer on the wall.\n"
    );
}

#[test]
fn beer_songs() {
    assert_eq!(
        sing(8, 6),
        "8 bottles of beer on the wall, 8 bottles of beer.\nTake one down and pass it around, 7 bottles of beer on the wall.\n\n7 bottles of beer on the wall, 7 bottles of beer.\nTake one down and pass it around, 6 bottles of beer on the wall.\n\n6 bottles of beer on the wall, 6 bottles of beer.\nTake one down and pass it around, 5 bottles of beer on the wall.\n"
    );
    assert_eq!(sing(1, 2), "");
    assert_eq!(sing(0, 0), verse(0));
}

#[test]
fn bob_replies() {
    assert_eq!(reply("Tom-ay-to, tom-aaaah-to."), "Whatever.");
    assert_eq!(reply("WATCH OUT!"), "Whoa, chill out!");
    assert_eq!(reply("watch out!"), "Whatever.");
    assert_eq!(reply("FCECDFCAAB"), "Whoa, chill out!");
    assert_eq!(reply("Does this cryogenic chamber make me look fat?"), "Sure.");
    assert_eq!(reply("You are, what, like 15?"), "Sure.");
    assert_eq!(reply("WHAT'S GOING ON?"), "Calm down, I know what I'm doing!");
    assert_eq!(reply("1, 2, 3 GO!"), "Whoa, chill out!");
    assert_eq!(reply("1, 2, 3"), "Whatever.");
    assert_eq!(reply("4?"), "Sure.");
    assert_eq!(reply("ZOMG THE %^*@#$(*^ ZOMBIES ARE COMING!!11!!1!"), "Whoa, chill out!");
    assert_eq!(reply("Ending with ? means a question."), "Whatever.");
    assert_eq!(reply(""), "Fine. Be that way!");
    assert_eq!(reply("          "), "Fine. Be that way!");
    assert_eq!(reply("\t\t\t\t"), "Fine. Be that way!");
    assert_eq!(reply("\nDoes this cryogenic chamber make me look fat?\nNo."), "Whatever.");
    assert_eq!(reply("Okay if like my  spacebar  quite a bit?   "), "Sure.");
    assert_eq!(reply("\n\r \t"), "Fine. Be that way!");
    assert_eq!(reply("\u{dc}BER!"), "Whoa, chill out!");
}

#[test]
fn anagram_candidates() {
    let none: Vec<&str> = Vec::new();
    assert_eq!(anagrams_for("diaper", &["hello", "world", "zombies", "pants"]), none);
    assert_eq!(anagrams_for("ant", &["tan", "stand", "at"]), vec!["tan"]);
    assert_eq!(anagrams_for("galea", &["eagle"]), none);
    assert_eq!(anagrams_for("good", &["dog", "goody"]), none);
    assert_eq!(anagrams_for("listen", &["enlists", "google", "inlets", "banana"]), vec!["inlets"]);
    assert_eq!(
        anagrams_for("allergy", &["gallery", "ballerina", "regally", "clergy", "largely", "leading"]),
        vec!["gallery", "regally", "largely"]
    );
    assert_eq!(anagrams_for("Orchestra", &["cashregister", "Carthorse", "radishes"]), vec!["Carthorse"]);
    assert_eq!(anagrams_for("go", &["go Go GO"]), none);
    assert_eq!(
        anagrams_for("\u{391}\u{392}\u{393}", &["\u{392}\u{393}\u{391}", "\u{392}\u{393}\u{394}", "\u{3b3}\u{3b2}\u{3b1}"]),
        vec!["\u{392}\u{393}\u{391}", "\u{3b3}\u{3b2}\u{3b1}"]
    );
    assert_eq!(anagrams_for("banana", &["Banana", "BANANA"]), none);
}
