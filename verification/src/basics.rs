//! Small functions on numbers, and the gifts of the twelve days.

use vstd::prelude::*;

verus! {

pub fn five() -> (n: i32)
    ensures
        n == 5,
{
    5
}

/// The successor of `x`.
pub fn plus_one(x: i32) -> (n: i32)
    requires
        x < i32::MAX,
    ensures
        n == x + 1,
{
    x + 1
}

/// The Fibonacci numbers, counted from one: 0, 1, 1, 2, 3, 5, ...
pub open spec fn fibonacci(n: nat) -> nat
    decreases n,
{
    if n <= 1 {
        0
    } else if n == 2 {
        1
    } else {
        fibonacci((n - 2) as nat) + fibonacci((n - 1) as nat)
    }
}

/// The Fibonacci numbers never decrease.
pub proof fn lemma_fibonacci_grows(i: nat, j: nat)
    requires
        i <= j,
    ensures
        fibonacci(i) <= fibonacci(j),
    decreases j,
{
    if i < j {
        lemma_fibonacci_grows(i, (j - 1) as nat);
        if j >= 3 {
            assert(fibonacci(j) == fibonacci((j - 2) as nat) + fibonacci((j - 1) as nat));
        }
    }
}

/// The 94th Fibonacci number is the last that fits in 64 bits.
pub proof fn lemma_fibonacci_94()
    ensures
        fibonacci(94) == 12200160415121876738,
{
    assert(fibonacci(1) == 0);
    assert(fibonacci(2) == 1);
    assert(fibonacci(3) == 1);
    assert(fibonacci(4) == 2);
    assert(fibonacci(5) == 3);
    assert(fibonacci(6) == 5);
    assert(fibonacci(7) == 8);
    assert(fibonacci(8) == 13);
    assert(fibonacci(9) == 21);
    assert(fibonacci(10) == 34);
    assert(fibonacci(11) == 55);
    assert(fibonacci(12) == 89);
    assert(fibonacci(13) == 144);
    assert(fibonacci(14) == 233);
    assert(fibonacci(15) == 377);
    assert(fibonacci(16) == 610);
    assert(fibonacci(17) == 987);
    assert(fibonacci(18) == 1597);
    assert(fibonacci(19) == 2584);
    assert(fibonacci(20) == 4181);
    assert(fibonacci(21) == 6765);
    assert(fibonacci(22) == 10946);
    assert(fibonacci(23) == 17711);
    assert(fibonacci(24) == 28657);
    assert(fibonacci(25) == 46368);
    assert(fibonacci(26) == 75025);
    assert(fibonacci(27) == 121393);
    assert(fibonacci(28) == 196418);
    assert(fibonacci(29) == 317811);
    assert(fibonacci(30) == 514229);
    assert(fibonacci(31) == 832040);
    assert(fibonacci(32) == 1346269);
    assert(fibonacci(33) == 2178309);
    assert(fibonacci(34) == 3524578);
    assert(fibonacci(35) == 5702887);
    assert(fibonacci(36) == 9227465);
    assert(fibonacci(37) == 14930352);
    assert(fibonacci(38) == 24157817);
    assert(fibonacci(39) == 39088169);
    assert(fibonacci(40) == 63245986);
    assert(fibonacci(41) == 102334155);
    assert(fibonacci(42) == 165580141);
    assert(fibonacci(43) == 267914296);
    assert(fibonacci(44) == 433494437);
    assert(fibonacci(45) == 701408733);
    assert(fibonacci(46) == 1134903170);
    assert(fibonacci(47) == 1836311903);
    assert(fibonacci(48) == 2971215073);
    assert(fibonacci(49) == 4807526976);
    assert(fibonacci(50) == 7778742049);
    assert(fibonacci(51) == 12586269025);
    assert(fibonacci(52) == 20365011074);
    assert(fibonacci(53) == 32951280099);
    assert(fibonacci(54) == 53316291173);
    assert(fibonacci(55) == 86267571272);
    assert(fibonacci(56) == 139583862445);
    assert(fibonacci(57) == 225851433717);
    assert(fibonacci(58) == 365435296162);
    assert(fibonacci(59) == 591286729879);
    assert(fibonacci(60) == 956722026041);
    assert(fibonacci(61) == 1548008755920);
    assert(fibonacci(62) == 2504730781961);
    assert(fibonacci(63) == 4052739537881);
    assert(fibonacci(64) == 6557470319842);
    assert(fibonacci(65) == 10610209857723);
    assert(fibonacci(66) == 17167680177565);
    assert(fibonacci(67) == 27777890035288);
    assert(fibonacci(68) == 44945570212853);
    assert(fibonacci(69) == 72723460248141);
    assert(fibonacci(70) == 117669030460994);
    assert(fibonacci(71) == 190392490709135);
    assert(fibonacci(72) == 308061521170129);
    assert(fibonacci(73) == 498454011879264);
    assert(fibonacci(74) == 806515533049393);
    assert(fibonacci(75) == 1304969544928657);
    assert(fibonacci(76) == 2111485077978050);
    assert(fibonacci(77) == 3416454622906707);
    assert(fibonacci(78) == 5527939700884757);
    assert(fibonacci(79) == 8944394323791464);
    assert(fibonacci(80) == 14472334024676221);
    assert(fibonacci(81) == 23416728348467685);
    assert(fibonacci(82) == 37889062373143906);
    assert(fibonacci(83) == 61305790721611591);
    assert(fibonacci(84) == 99194853094755497);
    assert(fibonacci(85) == 160500643816367088);
    assert(fibonacci(86) == 259695496911122585);
    assert(fibonacci(87) == 420196140727489673);
    assert(fibonacci(88) == 679891637638612258);
    assert(fibonacci(89) == 1100087778366101931);
    assert(fibonacci(90) == 1779979416004714189);
    assert(fibonacci(91) == 2880067194370816120);
    assert(fibonacci(92) == 4660046610375530309);
    assert(fibonacci(93) == 7540113804746346429);
    assert(fibonacci(94) == 12200160415121876738);
}

/// The `n`th Fibonacci number, counted from one.
pub fn fibo_n(n: u64) -> (f: u64)
    requires
        1 <= n <= 94,
    ensures
        f == fibonacci(n as nat),
    decreases n,
{
    if n == 1 {
        0
    } else if n == 2 {
        1
    } else {
        proof {
            lemma_fibonacci_94();
            lemma_fibonacci_grows(n as nat, 94);
            lemma_fibonacci_grows((n - 1) as nat, n as nat);
        }
        fibo_n(n - 2) + fibo_n(n - 1)
    }
}

/// The gift that is new on day `n + 1`.
pub open spec fn gift_text(n: int) -> Seq<char> {
    if n == 0 {
        "A patridge in a pear tree"@
    } else if n == 1 {
        "Two turtle doves"@
    } else if n == 2 {
        "Three French hens"@
    } else if n == 3 {
        "Four calling birds"@
    } else if n == 4 {
        "Five golden rings"@
    } else if n == 5 {
        "Six geese a-laying"@
    } else if n == 6 {
        "Seven swans a-swimming"@
    } else if n == 7 {
        "Eight maids a-milking"@
    } else if n == 8 {
        "Nine ladies dancing"@
    } else if n == 9 {
        "Ten lords a-leaping"@
    } else if n == 10 {
        "Eleven pipers piping"@
    } else {
        "Twelve drummers drumming"@
    }
}

/// The gift that is new on day `n + 1`.
pub fn gift(n: usize) -> (text: &'static str)
    requires
        n < 12,
    ensures
        text@ == gift_text(n as int),
{
    match n {
        0 => "A patridge in a pear tree",
        1 => "Two turtle doves",
        2 => "Three French hens",
        3 => "Four calling birds",
        4 => "Five golden rings",
        5 => "Six geese a-laying",
        6 => "Seven swans a-swimming",
        7 => "Eight maids a-milking",
        8 => "Nine ladies dancing",
        9 => "Ten lords a-leaping",
        10 => "Eleven pipers piping",
        _ => "Twelve drummers drumming",
    }
}

/// The gifts of day `day`, the newest first.
pub fn verse(day: usize) -> (lines: Vec<&'static str>)
    requires
        day <= 12,
    ensures
        lines@.len() == day,
        forall|i: int| 0 <= i < day ==> (#[trigger] lines@[i])@ == gift_text(day - 1 - i),
{
    let mut lines: Vec<&'static str> = Vec::new();
    let mut n: usize = day;
    while n > 0
        invariant
            n <= day <= 12,
            lines@.len() == day - n,
            forall|i: int| 0 <= i < day - n ==> (#[trigger] lines@[i])@ == gift_text(day - 1 - i),
        decreases n,
    {
        n = n - 1;
        lines.push(gift(n));
    }
    lines
}

/// The gifts of each of the twelve days in turn, each day's newest first.
pub fn twelve_days() -> (song: Vec<Vec<&'static str>>)
    ensures
        song@.len() == 12,
        forall|d: int| 0 <= d < 12 ==> (#[trigger] song@[d])@.len() == d + 1,
        forall|d: int, i: int|
            0 <= d < 12 && 0 <= i <= d ==> (#[trigger] song@[d]@[i])@ == gift_text(d - i),
{
    let mut song: Vec<Vec<&'static str>> = Vec::new();
    let mut day: usize = 1;
    while day < 13
        invariant
            1 <= day <= 13,
            song@.len() == day - 1,
            forall|d: int| 0 <= d < day - 1 ==> (#[trigger] song@[d])@.len() == d + 1,
            forall|d: int, i: int|
                0 <= d < day - 1 && 0 <= i <= d ==> (#[trigger] song@[d]@[i])@ == gift_text(d - i),
        decreases 13 - day,
    {
        song.push(verse(day));
        day = day + 1;
    }
    song
}

} // verus!
