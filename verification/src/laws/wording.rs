//! What words and numbers in texts stand for.

use vstd::prelude::*;

use vstd::utf8::{encode_scalar, encode_utf8};

use crate::cli;
use crate::config;
use crate::config::ConfigView;
use crate::keys::KeyView;
use crate::laws::reporting;
use crate::status;
use crate::text;
use crate::time;

verus! {

/// The value of a decimal digit.
pub open spec fn digit_value(c: char) -> int {
    c as int - '0' as int
}

/// The number that the decimal digits stand for.
pub open spec fn value_of(digits: Seq<char>) -> int
    decreases digits.len(),
{
    if digits.len() == 0 {
        0
    } else {
        value_of(digits.drop_last()) * 10 + digit_value(digits.last())
    }
}

/// A number in decimal notation is made of digits, has no needless zero in front, and stands for the
/// number.
pub proof fn decimals_stand_for_their_number(n: nat)
    ensures
        value_of(text::decimal(n)) == n,
        text::decimal(n).len() > 0,
        forall|i: int|
            0 <= i < text::decimal(n).len() ==> '0' <= #[trigger] text::decimal(n)[i] <= '9',
        n > 0 ==> text::decimal(n)[0] != '0',
    decreases n,
{
    let t = text::decimal(n);
    if n < 10 {
        assert(t.drop_last() =~= Seq::empty());
        assert(value_of(t.drop_last()) == 0);
    } else {
        let rest = text::decimal(n / 10);
        decimals_stand_for_their_number(n / 10);
        assert(t.drop_last() =~= rest);
        assert(t[0] == rest[0]);
        assert forall|i: int| 0 <= i < t.len() implies '0' <= #[trigger] t[i] <= '9' by {
            if i < rest.len() {
                assert(t[i] == rest[i]);
            }
        }
    }
}

/// Whether `start` is the beginning of the id that is shown: its first eight bytes, or all of it where
/// they are not whole characters.
pub open spec fn shown_of(id: Seq<char>, start: Seq<char>) -> bool {
    if exists|n: int| #[trigger] eight_bytes(id, n) {
        exists|n: int| #[trigger] eight_bytes(id, n) && start == id.take(n)
    } else {
        start == id
    }
}

/// Whether the first `n` characters take eight bytes.
pub open spec fn eight_bytes(id: Seq<char>, n: int) -> bool {
    0 <= n <= id.len() && encode_utf8(id.take(n)).len() == 8
}

/// The beginning that takes so many bytes.
proof fn head_holds(s: Seq<char>, bytes: int)
    requires
        bytes >= 0,
    ensures
        match status::head_of(s, bytes) {
            Some(t) => exists|n: int|
                0 <= n <= s.len() && t == #[trigger] s.take(n) && encode_utf8(s.take(n)).len() == bytes,
            None => forall|n: int|
                0 <= n <= s.len() ==> encode_utf8(#[trigger] s.take(n)).len() != bytes,
        },
    decreases s.len(),
{
    if bytes == 0 {
        assert(s.take(0) =~= Seq::empty());
        assert(encode_utf8(s.take(0)).len() == 0);
    } else if s.len() == 0 {
        assert forall|n: int| 0 <= n <= s.len() implies encode_utf8(#[trigger] s.take(n)).len()
            != bytes by {
            assert(s.take(n) =~= Seq::empty());
        }
    } else {
        let w = status::width(s[0]);
        let rest = s.skip(1);
        width_holds(s[0]);
        if w > bytes {
            assert forall|n: int| 0 <= n <= s.len() implies encode_utf8(#[trigger] s.take(n)).len()
                != bytes by {
                if n > 0 {
                    assert(s.take(n)[0] == s[0]);
                }
            }
        } else {
            head_holds(rest, bytes - w);
            assert forall|n: int| 1 <= n <= s.len() implies encode_utf8(#[trigger] s.take(n)).len()
                == w + encode_utf8(rest.take(n - 1)).len() by {
                assert(s.take(n)[0] == s[0]);
                assert(s.take(n).drop_first() =~= rest.take(n - 1));
            }
            match status::head_of(rest, bytes - w) {
                Some(t) => {
                    let n = choose|n: int|
                        0 <= n <= rest.len() && t == #[trigger] rest.take(n) && encode_utf8(
                            rest.take(n),
                        ).len() == bytes - w;
                    assert(seq![s[0]] + t =~= s.take(n + 1));
                    assert(rest.take(n + 1 - 1) == rest.take(n));
                },
                None => {
                    assert forall|n: int| 0 <= n <= s.len() implies encode_utf8(
                        #[trigger] s.take(n),
                    ).len() != bytes by {
                        if n == 0 {
                            assert(s.take(0) =~= Seq::empty());
                        } else {
                            assert(encode_utf8(rest.take(n - 1)).len() != bytes - w);
                        }
                    }
                },
            }
        }
    }
}

/// The width of a character is how many bytes it takes in UTF-8.
proof fn width_holds(c: char)
    ensures
        status::width(c) == encode_scalar(c as u32).len(),
{
    let n = c as u32;
    assert(n as int == c as int);
}

/// A key is shown by what the config calls it and by the beginning of its id.
pub proof fn keys_are_shown_by_label_and_id(c: ConfigView, id: Seq<char>)
    requires
        config::valid(c),
    ensures
        exists|label: Seq<char>, online: bool, start: Seq<char>|
            #![trigger reporting::called(c, id, label, online), shown_of(id, start)]
            reporting::called(c, id, label, online) && shown_of(id, start) && status::key_text(c, id)
                == label + " ["@ + start + "]"@,
{
    let key = KeyView { id, ..arbitrary() };
    reporting::keys_are_named_as_configured(c, key);
    head_holds(id, 8);
    let start = status::short(id);
    match status::head_of(id, 8) {
        Some(t) => {
            let n = choose|n: int|
                0 <= n <= id.len() && t == #[trigger] id.take(n) && encode_utf8(id.take(n)).len() == 8;
            assert(eight_bytes(id, n));
        },
        None => {
            assert forall|n: int| !#[trigger] eight_bytes(id, n) by {
                if 0 <= n <= id.len() {
                    assert(encode_utf8(id.take(n)).len() != 8);
                }
            }
        },
    }
    assert(shown_of(id, start));
}

/// Texts are in order by the first character in which they differ, and a text comes before what
/// continues it.
pub proof fn texts_are_in_order_by_character(
    start: Seq<char>,
    x: char,
    y: char,
    a: Seq<char>,
    b: Seq<char>,
)
    ensures
        x != y ==> (text::precedes(start + (seq![x] + a), start + (seq![y] + b)) <==> (x as int) < (
        y as int)),
        text::precedes(start, start + (seq![x] + a)),
        !text::precedes(start + (seq![x] + a), start),
{
    let none = Seq::<char>::empty();
    text::precedes_behind(start, seq![x] + a, seq![y] + b);
    text::precedes_behind(start, none, seq![x] + a);
    text::precedes_behind(start, seq![x] + a, none);
    assert(start + none =~= start);
    assert((seq![x] + a)[0] == x && (seq![y] + b)[0] == y);
}

/// What is joined has the separator between each two parts, and nowhere else.
pub proof fn separators_stand_between_parts(parts: Seq<Seq<char>>, last: Seq<char>, sep: Seq<char>)
    ensures
        text::joined(Seq::empty(), sep).len() == 0,
        parts.len() == 0 ==> text::joined(parts.push(last), sep) == last,
        parts.len() > 0 ==> text::joined(parts.push(last), sep) == text::joined(parts, sep) + sep
            + last,
{
    assert(parts.push(last).drop_last() =~= parts);
    assert(parts.push(last).last() == last);
}

/// What is split is joined back to what it was, and no part has the separator in it.
pub proof fn parts_are_joined_back(s: Seq<char>, c: char)
    ensures
        text::parts_of(s, c).len() > 0,
        text::joined(text::parts_of(s, c), seq![c]) == s,
        forall|i: int|
            0 <= i < text::parts_of(s, c).len() ==> !(#[trigger] text::parts_of(s, c)[i]).contains(c),
    decreases s.len(),
{
    let n = text::until(s, c);
    let all = text::parts_of(s, c);
    text::until_within(s, c);
    until_is_first(s, c);
    let first = s.take(n);
    if n < s.len() {
        let rest = text::parts_of(s.skip(n + 1), c);
        parts_are_joined_back(s.skip(n + 1), c);
        joined_from_the_front(first, rest, seq![c]);
        assert(all == seq![first] + rest);
        assert(first + seq![c] + s.skip(n + 1) =~= s);
        assert forall|i: int| 0 <= i < all.len() implies !(#[trigger] all[i]).contains(c) by {
            if i > 0 {
                assert(all[i] == rest[i - 1]);
            }
        }
    } else {
        assert(first =~= s);
    }
}

/// The position is that of the first such character.
proof fn until_is_first(s: Seq<char>, c: char)
    ensures
        !s.take(text::until(s, c)).contains(c),
    decreases s.len(),
{
    text::until_within(s, c);
    let n = text::until(s, c);
    if s.len() > 0 && s[0] != c {
        until_is_first(s.skip(1), c);
        text::until_within(s.skip(1), c);
        if s.take(n).contains(c) {
            let i = choose|i: int| 0 <= i < s.take(n).len() && s.take(n)[i] == c;
            assert(s.skip(1).take(n - 1)[i - 1] == c);
        }
    }
}

/// What is joined starts with the first part.
proof fn joined_from_the_front(first: Seq<char>, rest: Seq<Seq<char>>, sep: Seq<char>)
    requires
        rest.len() > 0,
    ensures
        text::joined(seq![first] + rest, sep) == first + sep + text::joined(rest, sep),
    decreases rest.len(),
{
    let all = seq![first] + rest;
    let one = seq![first];
    if rest.len() == 1 {
        assert(all.drop_last() =~= one);
        assert(all.last() == rest[0]);
        assert(text::joined(one, sep) == first);
    } else {
        let fewer = rest.drop_last();
        joined_from_the_front(first, fewer, sep);
        assert(all.drop_last() =~= one + fewer);
        assert(all.last() == rest.last());
        assert(first + sep + text::joined(fewer, sep) + sep + rest.last() =~= first + sep + (
        text::joined(fewer, sep) + sep + rest.last()));
    }
}

/// Whether the character may stand in the name of a branch: a letter or a digit, or a dot.
pub open spec fn branch_character(c: char) -> bool {
    ('a' <= c && c <= 'z') || ('A' <= c && c <= 'Z') || ('0' <= c && c <= '9') || c == '.'
}

/// The name of an event has nothing in it but letters, digits, dots and dashes. It has a dash for each
/// other character, and keeps the rest.
pub proof fn event_names_can_name_branches(s: Seq<char>, i: int)
    requires
        0 <= i < s.len(),
    ensures
        cli::slug(s).len() == s.len(),
        branch_character(s[i]) ==> cli::slug(s)[i] == s[i],
        !branch_character(s[i]) ==> cli::slug(s)[i] == '-',
{
}

/// The time that passes between two instants is the same, but for its sign, seen from either. Between
/// instants in ordinary seconds it is that between their seconds and what is left over.
pub proof fn time_passes_the_same_way_both_ways(a: int, b: int)
    ensures
        time::elapsed(a, b) == -time::elapsed(b, a),
        time::elapsed(a, a) == 0,
        !time::leaping(a) && !time::leaping(b) ==> time::elapsed(a, b) == (time::second_of(b)
            - time::second_of(a)) * 1_000_000_000 + time::nanos_of(b) - time::nanos_of(a),
{
    let s = time::second_of(b) - time::second_of(a);
    assert(-(s * 1_000_000_000) == (-s) * 1_000_000_000);
}

/// So many days later, or earlier, is at the same time of the day. No other day has a leap second: its
/// fraction is then one of the second before it, or, so many days earlier, of the one after it.
pub proof fn days_later(t: int, days: int)
    ensures
        ({
            let later = time::days_after(t, days);
            let s = time::second_of(t) + days * 86_400;
            &&& !time::leaping(t) ==> time::second_of(later) == s && time::nanos_of(later)
                == time::nanos_of(t)
            &&& time::leaping(t) && days > 0 ==> time::second_of(later) == s && time::nanos_of(later)
                == time::nanos_of(t) - 1_000_000_000
            &&& time::leaping(t) && days < 0 ==> time::second_of(later) == s + 1 && time::nanos_of(
                later,
            ) == time::nanos_of(t) - 1_000_000_000
            &&& days == 0 ==> later == t
        }),
{
    let s = time::second_of(t) + days * time::day();
    time::instant_parts(s, time::nanos_of(t));
    if time::leaping(t) {
        time::instant_parts(s, time::nanos_of(t) - time::second());
        time::instant_parts(s + 1, time::nanos_of(t) - time::second());
    }
}

/// A leap second lasts as long as any other: from the start of a second to that of the leap second in
/// it, and from there to the start of the next second of the day, a second passes. Where a day has no
/// leap second, one passes from each second to the next.
pub proof fn leap_seconds_last_a_second(s: int)
    requires
        time::second_of_day(s) + 1 < 86_400,
    ensures
        time::elapsed(time::instant(s, 0), time::instant(s, 1_000_000_000)) == 1_000_000_000,
        time::elapsed(time::instant(s, 1_000_000_000), time::instant(s + 1, 0)) == 1_000_000_000,
        time::elapsed(time::instant(s, 0), time::instant(s + 1, 0)) == 1_000_000_000,
{
    time::instant_parts(s, 0);
    time::instant_parts(s, 1_000_000_000);
    time::instant_parts(s + 1, 0);
    assert(time::second_of_day(s + 1) == time::second_of_day(s) + 1);
}

/// What is left of an instant without its fraction is the start of its second, or of its leap second.
pub proof fn fractions_are_dropped(t: int)
    ensures
        time::second_of(time::whole(t)) == time::second_of(t),
        time::leaping(time::whole(t)) <==> time::leaping(t),
        time::nanos_of(time::whole(t)) == 0 || time::nanos_of(time::whole(t)) == 1_000_000_000,
        time::nanos_of(time::whole(t)) <= time::nanos_of(t),
{
    time::instant_parts(time::second_of(t), 0);
    time::instant_parts(time::second_of(t), 1_000_000_000);
}

} // verus!
