use ownership_tracker::accounts::{build_user, build_user_shorthand};
use ownership_tracker::basics::{fibo_n, five, gift, twelve_days, verse};
use ownership_tracker::coins::{
    add_fancy_hat, move_player, remove_fancy_hat, roll_again, value_in_cents, Coin, UsState,
};
use ownership_tracker::handoff::{gives_ownership, takes_and_gives_back};
use ownership_tracker::messages::Message;
use ownership_tracker::references::change;
use ownership_tracker::shapes::{area1, area2, area3, Rectangle};
use ownership_tracker::words::{first_word, first_word_2, first_word_3};

#[test]
fn five_is_five() {
    assert_eq!(five(), 5);
}

#[test]
fn plus_one_of_a_number() {
    assert_eq!(ownership_tracker::basics::plus_one(5), 6);
    assert_eq!(ownership_tracker::basics::plus_one(-1), 0);
    assert_eq!(ownership_tracker::basics::plus_one(i32::MAX - 1), i32::MAX);
}

#[test]
fn plus_one_of_an_option() {
    assert_eq!(ownership_tracker::coins::plus_one(Some(5)), Some(6));
    assert_eq!(ownership_tracker::coins::plus_one(None), None);
}

#[test]
fn fibonacci_numbers() {
    assert_eq!(fibo_n(1), 0);
    assert_eq!(fibo_n(2), 1);
    assert_eq!(fibo_n(3), 1);
    assert_eq!(fibo_n(4), 2);
    assert_eq!(fibo_n(13), 144);
    assert_eq!(fibo_n(20), 4181);
}

#[test]
fn gifts_of_a_day() {
    assert_eq!(gift(0), "A patridge in a pear tree");
    assert_eq!(gift(11), "Twelve drummers drumming");
    assert_eq!(verse(0), Vec::<&str>::new());
    assert_eq!(verse(1), vec!["A patridge in a pear tree"]);
    assert_eq!(
        verse(3),
        vec!["Three French hens", "Two turtle doves", "A patridge in a pear tree"]
    );
    assert_eq!(verse(12).len(), 12);
    assert_eq!(verse(12)[0], "Twelve drummers drumming");
}

#[test]
fn gifts_of_the_twelve_days() {
    let song = twelve_days();
    assert_eq!(song.len(), 12);
    for (d, lines) in song.iter().enumerate() {
        assert_eq!(lines, &verse(d + 1));
        assert_eq!(lines[d], "A patridge in a pear tree");
    }
    assert_eq!(song[4][0], "Five golden rings");
}

#[test]
fn first_word_of_hello_world() {
    let s = String::from("hello world");
    assert_eq!(first_word(&s), 5);
    assert_eq!(first_word_2(&s), "hello");
    assert_eq!(first_word_3(&s), "hello");
    assert_eq!(first_word_3("hello world"), "hello");
}

#[test]
fn first_word_without_a_space() {
    let s = String::from("hello");
    assert_eq!(first_word(&s), 5);
    assert_eq!(first_word_2(&s), "hello");
    assert_eq!(first_word_3(""), "");
    assert_eq!(first_word(&String::new()), 0);
}

#[test]
fn first_word_with_leading_space_and_wide_characters() {
    assert_eq!(first_word(&String::from(" hello")), 0);
    assert_eq!(first_word_3(" hello"), "");
    let s = String::from("\u{e9}t\u{e9} chaud");
    assert_eq!(first_word(&s), 5);
    assert_eq!(first_word_2(&s), "\u{e9}t\u{e9}");
    assert_eq!(first_word_3("a b c"), "a");
}

#[test]
fn rectangle_methods() {
    let rect1 = Rectangle { width: 30, height: 50 };
    let rect2 = Rectangle { width: 10, height: 40 };
    let rect3 = Rectangle { width: 60, height: 45 };
    assert_eq!(rect1.area(), 1500);
    assert!(rect1.width());
    assert!(!Rectangle { width: 0, height: 3 }.width());
    assert!(rect1.can_hold(&rect2));
    assert!(!rect1.can_hold(&rect3));
    assert!(!rect1.can_hold(&rect1));
    assert_eq!(Rectangle::square(10), Rectangle { width: 10, height: 10 });
}

#[test]
fn three_ways_to_an_area() {
    assert_eq!(area1(30, 50), 1500);
    assert_eq!(area2((30, 50)), 1500);
    assert_eq!(area3(&Rectangle { width: 30, height: 50 }), 1500);
    assert_eq!(area1(65535, 65537), u32::MAX);
    assert_eq!(area1(0, u32::MAX), 0);
}

#[test]
fn ownership_goes_in_and_comes_back() {
    assert_eq!(gives_ownership(), "yours");
    assert_eq!(takes_and_gives_back(String::from("hello")), "hello");
    let (s, len) = ownership_tracker::handoff::calculate_length(String::from("hello"));
    assert_eq!(s, "hello");
    assert_eq!(len, 5);
    let (s, len) = ownership_tracker::handoff::calculate_length(String::from("\u{e9}t\u{e9}"));
    assert_eq!(s, "\u{e9}t\u{e9}");
    assert_eq!(len, 5);
}

#[test]
fn length_and_change_through_a_reference() {
    let mut s = String::from("hello");
    assert_eq!(ownership_tracker::references::calculate_length(&s), 5);
    change(&mut s);
    assert_eq!(s, "hello, world");
    assert_eq!(ownership_tracker::references::calculate_length(&s), 12);
}

#[test]
fn users_are_built_active() {
    let a = build_user(String::from("p.cassidy@example.com"), String::from("pierre"));
    assert!(a.active);
    assert_eq!(a.username, "pierre");
    assert_eq!(a.email, "p.cassidy@example.com");
    assert_eq!(a.sign_in_count, 1);
    let b = build_user_shorthand(String::from("p.cassidy@example.com"), String::from("pierre"));
    assert!(b.active);
    assert_eq!(b.username, "pierre");
    assert_eq!(b.email, "p.cassidy@example.com");
    assert_eq!(b.sign_in_count, 1);
}

#[test]
fn coins_in_cents() {
    assert_eq!(value_in_cents(Coin::Penny), 1);
    assert_eq!(value_in_cents(Coin::Nickel), 5);
    assert_eq!(value_in_cents(Coin::Dime), 10);
    assert_eq!(value_in_cents(Coin::Quarter(UsState::Alabama)), 25);
    assert_eq!(value_in_cents(Coin::Quarter(UsState::Alaska)), 25);
}

#[test]
fn moves_and_messages_do_nothing() {
    add_fancy_hat();
    remove_fancy_hat();
    move_player(9);
    roll_again();
    let m = Message::Write(String::from("hello"));
    m.call();
    Message::Quit.call();
    Message::Move { x: 1, y: 2 }.call();
    Message::ChangeColor(0, 0, 0).call();
    assert!(matches!(m, Message::Write(_)));
}
