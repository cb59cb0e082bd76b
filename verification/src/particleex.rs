//! Particleex commands: splitting a command line into arguments, reading
//! the command type and the arguments each type takes, and validating a line.
//! The numeric arguments are kept as text; evaluating them and the
//! expressions is the work of the compiler around this module.
use vstd::prelude::*;
use crate::text::{
    ascii_whitespace, chars_of, contains_chars, contains_word, eq_chars, is_ascii_ws, lowercase,
    occurs_at,
    starts_with, matches_at, string_from_chars, to_lowercase, trim_chars, trimmed,
};

verus! {

// ───────────────────────── numbers ─────────────────────────

/// Whether `c` is an ASCII digit.
pub open spec fn is_digit(c: char) -> bool {
    '0' <= c && c <= '9'
}

/// The number the decimal digits `s` spell.
pub open spec fn digits_value(s: Seq<char>) -> nat
    decreases s.len(),
{
    if s.len() == 0 {
        0
    } else {
        10 * digits_value(s.drop_last()) + ((s.last() as u32) - ('0' as u32)) as nat
    }
}

/// Every character of `s` is a digit.
pub open spec fn all_digits(s: Seq<char>) -> bool {
    forall|i: int| 0 <= i < s.len() ==> #[trigger] is_digit(s[i])
}

/// What `str::parse::<u32>` gives for `s`: an optional `+` followed by at
/// least one decimal digit, the value fitting a `u32`.
pub open spec fn parse_u32_spec(s: Seq<char>) -> Option<u32> {
    let body = if s.len() > 0 && s[0] == '+' {
        s.drop_first()
    } else {
        s
    };
    if body.len() == 0 || !all_digits(body) || digits_value(body) > u32::MAX {
        None
    } else {
        Some(digits_value(body) as u32)
    }
}

/// What `str::parse::<i32>` gives for `s`: an optional `+` or `-` followed
/// by at least one decimal digit, the value fitting an `i32`.
pub open spec fn parse_i32_spec(s: Seq<char>) -> Option<i32> {
    let neg = s.len() > 0 && s[0] == '-';
    let body = if s.len() > 0 && (s[0] == '+' || s[0] == '-') {
        s.drop_first()
    } else {
        s
    };
    if body.len() == 0 || !all_digits(body) {
        None
    } else if neg {
        if digits_value(body) > 2147483648 {
            None
        } else {
            Some((-(digits_value(body) as int)) as i32)
        }
    } else {
        if digits_value(body) > 2147483647 {
            None
        } else {
            Some(digits_value(body) as i32)
        }
    }
}

proof fn lemma_digits_value_take(s: Seq<char>, i: int)
    requires
        0 <= i < s.len(),
        is_digit(s[i]),
    ensures
        digits_value(s.take(i + 1)) == 10 * digits_value(s.take(i)) + ((s[i] as u32) - ('0' as u32)),
{
    assert(s.take(i + 1).drop_last() =~= s.take(i));
}

proof fn lemma_digits_value_mono(s: Seq<char>, i: int)
    requires
        0 <= i <= s.len(),
        all_digits(s),
    ensures
        digits_value(s.take(i)) <= digits_value(s),
    decreases s.len() - i,
{
    if i < s.len() {
        lemma_digits_value_mono(s, i + 1);
        lemma_digits_value_take(s, i);
        assert(is_digit(s[i]));
    } else {
        assert(s.take(i) =~= s);
    }
}

/// The value of the digits `s[from..]`, when they are all digits and the
/// value is at most `limit` (at most 2^32).
fn digits_up_to(s: &Vec<char>, from: usize, limit: u64) -> (r: Option<u64>)
    requires
        from <= s@.len(),
        9 <= limit <= 4294967296,
    ensures
        match r {
            Some(v) => all_digits(s@.skip(from as int)) && v == digits_value(s@.skip(from as int))
                && v <= limit,
            None => !all_digits(s@.skip(from as int)) || digits_value(s@.skip(from as int))
                > limit,
        },
{
    let ghost body = s@.skip(from as int);
    let mut v: u64 = 0;
    let mut i: usize = from;
    while i < s.len()
        invariant
            from <= i <= s@.len(),
            body == s@.skip(from as int),
            9 <= limit <= 4294967296,
            all_digits(body.take(i - from)),
            v == digits_value(body.take(i - from)),
            v <= limit,
        decreases s@.len() - i,
    {
        let c = s[i];
        assert(body[i - from] == c);
        if !('0' <= c && c <= '9') {
            proof {
                assert(!is_digit(body[i - from]));
            }
            return None;
        }
        proof {
            lemma_digits_value_take(body, i - from);
        }
        let d = (c as u32 - '0' as u32) as u64;
        if v > (limit - d) / 10 {
            proof {
                assert(10 * v + d > limit);
                assert forall|j: int| 0 <= j < i + 1 - from implies #[trigger] is_digit(
                    body.take(i + 1 - from)[j],
                ) by {
                    if j < i - from {
                        assert(body.take(i + 1 - from)[j] == body.take(i - from)[j]);
                    }
                }
                if all_digits(body) {
                    lemma_digits_value_mono(body, i + 1 - from);
                }
            }
            return None;
        }
        v = 10 * v + d;
        i = i + 1;
        proof {
            assert forall|j: int| 0 <= j < i - from implies #[trigger] is_digit(body.take(i - from)[j]) by {
                if j < i - 1 - from {
                    assert(body.take(i - from)[j] == body.take(i - 1 - from)[j]);
                }
            }
        }
    }
    assert(body.take(i - from) =~= body);
    Some(v)
}

/// Parses `s` as `str::parse::<u32>` does.
pub fn parse_u32_chars(s: &Vec<char>) -> (r: Option<u32>)
    ensures
        r == parse_u32_spec(s@),
{
    let from: usize = if s.len() > 0 && s[0] == '+' {
        1
    } else {
        0
    };
    assert(s@.skip(from as int) =~= if s@.len() > 0 && s@[0] == '+' {
        s@.drop_first()
    } else {
        s@
    });
    if from == s.len() {
        return None;
    }
    match digits_up_to(s, from, 4294967295) {
        Some(v) => Some(v as u32),
        None => None,
    }
}

/// Parses `s` as `str::parse::<i32>` does.
pub fn parse_i32_chars(s: &Vec<char>) -> (r: Option<i32>)
    ensures
        r == parse_i32_spec(s@),
{
    let neg = s.len() > 0 && s[0] == '-';
    let from: usize = if s.len() > 0 && (s[0] == '+' || s[0] == '-') {
        1
    } else {
        0
    };
    assert(s@.skip(from as int) =~= if s@.len() > 0 && (s@[0] == '+' || s@[0] == '-') {
        s@.drop_first()
    } else {
        s@
    });
    if from == s.len() {
        return None;
    }
    if neg {
        match digits_up_to(s, from, 2147483648) {
            Some(v) => Some((0 - (v as i64)) as i32),
            None => None,
        }
    } else {
        match digits_up_to(s, from, 2147483647) {
            Some(v) => Some(v as i32),
            None => None,
        }
    }
}

/// The `u32` that `val` spells, or `default` when it spells none.
pub fn parse_int(val: &str, default: u32) -> (r: u32)
    ensures
        r == match parse_u32_spec(val@) {
            Some(v) => v,
            None => default,
        },
{
    let cs = chars_of(val);
    match parse_u32_chars(&cs) {
        Some(v) => v,
        None => default,
    }
}

/// Lifespan used for a negative lifespan: a very long one.
pub const LONG_LIFESPAN: u32 = 6000;

/// The lifespan `raw` asks for: a negative number means a very long one
/// (6000 ticks), 0 or text that is not an `i32` means `default`, a positive
/// number is taken as it is.
pub open spec fn lifespan_spec(raw: Seq<char>, default: u32) -> u32 {
    match parse_i32_spec(raw) {
        Some(n) => if n < 0 {
            6000
        } else if n == 0 {
            default
        } else {
            n as u32
        },
        None => default,
    }
}

/// The lifespan `raw` asks for (see [`lifespan_spec`]).
pub fn resolve_lifespan(raw: &str, default: u32) -> (r: u32)
    ensures
        r == lifespan_spec(raw@, default),
{
    let cs = chars_of(raw);
    match parse_i32_chars(&cs) {
        Some(n) => if n < 0 {
            LONG_LIFESPAN
        } else if n == 0 {
            default
        } else {
            n as u32
        },
        None => default,
    }
}

// ───────────────────────── command types ─────────────────────────

/// What a command type takes: a colour, and which of the generation modes
/// it runs in.
#[derive(Clone, Copy, Debug)]
pub struct CommandConfig {
    pub has_color: bool,
    pub is_normal: bool,
    pub is_conditional: bool,
    pub is_animated: bool,
    pub is_polar: bool,
}

/// `s` with every `-` taken out.
pub open spec fn without_hyphens(s: Seq<char>) -> Seq<char>
    decreases s.len(),
{
    if s.len() == 0 {
        Seq::empty()
    } else if s.last() == '-' {
        without_hyphens(s.drop_last())
    } else {
        without_hyphens(s.drop_last()).push(s.last())
    }
}

fn without_hyphens_chars(s: &Vec<char>) -> (r: Vec<char>)
    ensures
        r@ == without_hyphens(s@),
{
    let mut r: Vec<char> = Vec::new();
    let mut i: usize = 0;
    while i < s.len()
        invariant
            i <= s@.len(),
            r@ == without_hyphens(s@.take(i as int)),
        decreases s@.len() - i,
    {
        assert(s@.take(i + 1).drop_last() =~= s@.take(i as int));
        if s[i] != '-' {
            r.push(s[i]);
        }
        i = i + 1;
    }
    assert(s@.take(s@.len() as int) =~= s@);
    r
}

/// The joined form of a hyphenated command name: `tick-parameter` is
/// `tickparameter`.
pub fn normalize_command_name(name: &str) -> (r: String)
    ensures
        r@ == without_hyphens(name@),
{
    let cs = chars_of(name);
    let joined = without_hyphens_chars(&cs);
    string_from_chars(&joined)
}

/// A configuration of the given flags.
pub open spec fn config(
    has_color: bool,
    is_normal: bool,
    is_conditional: bool,
    is_animated: bool,
    is_polar: bool,
) -> CommandConfig {
    CommandConfig { has_color, is_normal, is_conditional, is_animated, is_polar }
}

/// The configuration of the command type `name` (already joined), if it
/// is one: the `rgba` types take no colour, the `tick` types are animated,
/// the `polar` types are polar.
pub open spec fn command_config(name: Seq<char>) -> Option<CommandConfig> {
    if name == seq!['n', 'o', 'r', 'm', 'a', 'l'] {
        Some(config(true, true, false, false, false))
    } else if name == seq!['c', 'o', 'n', 'd', 'i', 't', 'i', 'o', 'n', 'a', 'l'] {
        Some(config(true, false, true, false, false))
    } else if name == seq!['p', 'a', 'r', 'a', 'm', 'e', 't', 'e', 'r'] {
        Some(config(true, false, false, false, false))
    } else if name == seq!['p', 'o', 'l', 'a', 'r', 'p', 'a', 'r', 'a', 'm', 'e', 't', 'e', 'r'] {
        Some(config(true, false, false, false, true))
    } else if name == seq!['r', 'g', 'b', 'a', 'p', 'a', 'r', 'a', 'm', 'e', 't', 'e', 'r'] {
        Some(config(false, false, false, false, false))
    } else if name == seq![
        'r', 'g', 'b', 'a', 'p', 'o', 'l', 'a', 'r', 'p', 'a', 'r', 'a', 'm', 'e', 't', 'e', 'r'
    ] {
        Some(config(false, false, false, false, true))
    } else if name == seq!['t', 'i', 'c', 'k', 'p', 'a', 'r', 'a', 'm', 'e', 't', 'e', 'r'] {
        Some(config(true, false, false, true, false))
    } else if name == seq![
        't', 'i', 'c', 'k', 'p', 'o', 'l', 'a', 'r', 'p', 'a', 'r', 'a', 'm', 'e', 't', 'e', 'r'
    ] {
        Some(config(true, false, false, true, true))
    } else if name == seq![
        'r', 'g', 'b', 'a', 't', 'i', 'c', 'k', 'p', 'a', 'r', 'a', 'm', 'e', 't', 'e', 'r'
    ] {
        Some(config(false, false, false, true, false))
    } else if name == seq![
        'r', 'g', 'b', 'a', 't', 'i', 'c', 'k', 'p', 'o', 'l', 'a', 'r', 'p', 'a', 'r', 'a', 'm',
        'e', 't', 'e', 'r'
    ] {
        Some(config(false, false, false, true, true))
    } else {
        None
    }
}

fn config_of_joined(n: &Vec<char>) -> (r: Option<CommandConfig>)
    ensures
        r == command_config(n@),
{
    if eq_chars(n, &['n', 'o', 'r', 'm', 'a', 'l']) {
        Some(CommandConfig { has_color: true, is_normal: true, is_conditional: false, is_animated: false, is_polar: false })
    } else if eq_chars(n, &['c', 'o', 'n', 'd', 'i', 't', 'i', 'o', 'n', 'a', 'l']) {
        Some(CommandConfig { has_color: true, is_normal: false, is_conditional: true, is_animated: false, is_polar: false })
    } else if eq_chars(n, &['p', 'a', 'r', 'a', 'm', 'e', 't', 'e', 'r']) {
        Some(CommandConfig { has_color: true, is_normal: false, is_conditional: false, is_animated: false, is_polar: false })
    } else if eq_chars(n, &['p', 'o', 'l', 'a', 'r', 'p', 'a', 'r', 'a', 'm', 'e', 't', 'e', 'r']) {
        Some(CommandConfig { has_color: true, is_normal: false, is_conditional: false, is_animated: false, is_polar: true })
    } else if eq_chars(n, &['r', 'g', 'b', 'a', 'p', 'a', 'r', 'a', 'm', 'e', 't', 'e', 'r']) {
        Some(CommandConfig { has_color: false, is_normal: false, is_conditional: false, is_animated: false, is_polar: false })
    } else if eq_chars(
        n,
        &['r', 'g', 'b', 'a', 'p', 'o', 'l', 'a', 'r', 'p', 'a', 'r', 'a', 'm', 'e', 't', 'e', 'r'],
    ) {
        Some(CommandConfig { has_color: false, is_normal: false, is_conditional: false, is_animated: false, is_polar: true })
    } else if eq_chars(n, &['t', 'i', 'c', 'k', 'p', 'a', 'r', 'a', 'm', 'e', 't', 'e', 'r']) {
        Some(CommandConfig { has_color: true, is_normal: false, is_conditional: false, is_animated: true, is_polar: false })
    } else if eq_chars(
        n,
        &['t', 'i', 'c', 'k', 'p', 'o', 'l', 'a', 'r', 'p', 'a', 'r', 'a', 'm', 'e', 't', 'e', 'r'],
    ) {
        Some(CommandConfig { has_color: true, is_normal: false, is_conditional: false, is_animated: true, is_polar: true })
    } else if eq_chars(
        n,
        &['r', 'g', 'b', 'a', 't', 'i', 'c', 'k', 'p', 'a', 'r', 'a', 'm', 'e', 't', 'e', 'r'],
    ) {
        Some(CommandConfig { has_color: false, is_normal: false, is_conditional: false, is_animated: true, is_polar: false })
    } else if eq_chars(
        n,
        &[
            'r', 'g', 'b', 'a', 't', 'i', 'c', 'k', 'p', 'o', 'l', 'a', 'r', 'p', 'a', 'r', 'a',
            'm', 'e', 't', 'e', 'r',
        ],
    ) {
        Some(CommandConfig { has_color: false, is_normal: false, is_conditional: false, is_animated: true, is_polar: true })
    } else {
        None
    }
}

/// The configuration of the command type `command_type`, hyphens ignored;
/// `None` for a name that is no command type.
pub fn get_command_config(command_type: &str) -> (r: Option<CommandConfig>)
    ensures
        r == command_config(without_hyphens(command_type@)),
{
    let cs = chars_of(command_type);
    let joined = without_hyphens_chars(&cs);
    config_of_joined(&joined)
}

/// `w` does not occur in `s` when no two neighbouring characters of `s`
/// are the characters of `w` at `d` and `d + 1`.
proof fn lemma_pair_absent(s: Seq<char>, w: Seq<char>, d: int)
    requires
        0 <= d,
        d + 2 <= w.len(),
        forall|i: int| 0 <= i && i + 1 < s.len() ==> !(#[trigger] s[i] == w[d] && s[i + 1] == w[d + 1]),
    ensures
        !contains_word(s, w),
{
    assert forall|at: int| !#[trigger] occurs_at(s, w, at) by {
        if occurs_at(s, w, at) {
            assert(s.subrange(at, at + w.len())[d] == s[at + d]);
            assert(s.subrange(at, at + w.len())[d + 1] == s[at + d + 1]);
        }
    }
}

/// `w` occurs in `s` at `at`.
proof fn lemma_present(s: Seq<char>, w: Seq<char>, at: int)
    requires
        0 <= at,
        at + w.len() <= s.len(),
        s.subrange(at, at + w.len()) == w,
    ensures
        contains_word(s, w),
{
    assert(occurs_at(s, w, at));
}

/// What the name of a command type says of it: the type is polar exactly
/// when its name holds `polar`, animated exactly when it holds `tick`, and
/// takes a colour exactly when it does not hold `rgba`; only `normal` is
/// the normal type and only `conditional` the conditional one.
pub proof fn lemma_command_config_flags(name: Seq<char>)
    requires
        command_config(name) is Some,
    ensures
        command_config(name)->0.is_polar == contains_word(name, seq!['p', 'o', 'l', 'a', 'r']),
        command_config(name)->0.is_animated == contains_word(name, seq!['t', 'i', 'c', 'k']),
        command_config(name)->0.has_color == !contains_word(name, seq!['r', 'g', 'b', 'a']),
        command_config(name)->0.is_normal == (name == seq!['n', 'o', 'r', 'm', 'a', 'l']),
        command_config(name)->0.is_conditional == (name == seq![
            'c', 'o', 'n', 'd', 'i', 't', 'i', 'o', 'n', 'a', 'l'
        ]),
{
    let polar = seq!['p', 'o', 'l', 'a', 'r'];
    let tick = seq!['t', 'i', 'c', 'k'];
    let rgba = seq!['r', 'g', 'b', 'a'];
    let c = command_config(name)->0;
    let base = if starts_with_rgba(name) { 4int } else { 0int };
    assert(name.len() >= 6);
    if c.is_polar {
        let at = if c.is_animated { base + 4 } else { base };
        assert(name.subrange(at, at + 5) =~= polar);
        lemma_present(name, polar, at);
    } else {
        lemma_pair_absent(name, polar, 0);
    }
    if c.is_animated {
        assert(name.subrange(base, base + 4) =~= tick);
        lemma_present(name, tick, base);
    } else {
        lemma_pair_absent(name, tick, 2);
    }
    if c.has_color {
        lemma_pair_absent(name, rgba, 0);
    } else {
        assert(name.subrange(0, 4) =~= rgba);
        lemma_present(name, rgba, 0);
    }
}

/// Whether the name begins with `rgba`.
spec fn starts_with_rgba(name: Seq<char>) -> bool {
    name.len() >= 4 && name[0] == 'r' && name[1] == 'g'
}

// ───────────────────────── splitting a line ─────────────────────────

/// The state of the splitter: the arguments finished so far, the one being
/// read, and whether a single or a double quote is open.
pub type SplitState = (Seq<Seq<char>>, Seq<char>, bool, bool);

/// The splitter after reading `ch`: a quote that is not inside the other
/// kind opens or closes a quoted run and is dropped; ASCII whitespace
/// outside quotes ends the current argument, if it holds anything; every
/// other character joins the current argument.
pub open spec fn split_step(st: SplitState, ch: char) -> SplitState {
    if ch == '\'' && !st.3 {
        (st.0, st.1, !st.2, st.3)
    } else if ch == '"' && !st.2 {
        (st.0, st.1, st.2, !st.3)
    } else if is_ascii_ws(ch) && !st.2 && !st.3 {
        if st.1.len() > 0 {
            (st.0.push(st.1), Seq::empty(), st.2, st.3)
        } else {
            st
        }
    } else {
        (st.0, st.1.push(ch), st.2, st.3)
    }
}

/// The splitter after reading all of `s`.
pub open spec fn split_scan(s: Seq<char>) -> SplitState
    decreases s.len(),
{
    if s.len() == 0 {
        (Seq::empty(), Seq::empty(), false, false)
    } else {
        split_step(split_scan(s.drop_last()), s.last())
    }
}

/// The arguments of the line `s`: what the splitter finished, and the last
/// argument if it holds anything. No argument is empty.
pub open spec fn split_args_spec(s: Seq<char>) -> Seq<Seq<char>> {
    let st = split_scan(s);
    if st.1.len() > 0 {
        st.0.push(st.1)
    } else {
        st.0
    }
}

proof fn lemma_split_scan_nonempty(s: Seq<char>)
    ensures
        forall|i: int| 0 <= i < split_scan(s).0.len() ==> #[trigger] split_scan(s).0[i].len() > 0,
    decreases s.len(),
{
    if s.len() > 0 {
        let prev = split_scan(s.drop_last());
        lemma_split_scan_nonempty(s.drop_last());
        let st = split_step(prev, s.last());
        assert(split_scan(s) == st);
        assert forall|i: int| 0 <= i < st.0.len() implies #[trigger] st.0[i].len() > 0 by {
            if i < prev.0.len() {
                assert(st.0[i] == prev.0[i]);
            }
        }
    }
}

/// Splitting never gives an empty argument: whitespace runs and quotes
/// alone leave nothing behind.
pub proof fn lemma_split_args_nonempty(s: Seq<char>)
    ensures
        forall|i: int|
            0 <= i < split_args_spec(s).len() ==> #[trigger] split_args_spec(s)[i].len() > 0,
{
    lemma_split_scan_nonempty(s);
}

/// The words of `s` and the word being read: the maximal runs of
/// characters that are not ASCII whitespace.
pub open spec fn ws_scan(s: Seq<char>) -> (Seq<Seq<char>>, Seq<char>)
    decreases s.len(),
{
    if s.len() == 0 {
        (Seq::empty(), Seq::empty())
    } else {
        let st = ws_scan(s.drop_last());
        if is_ascii_ws(s.last()) {
            if st.1.len() > 0 {
                (st.0.push(st.1), Seq::empty())
            } else {
                st
            }
        } else {
            (st.0, st.1.push(s.last()))
        }
    }
}

/// What `str::split_ascii_whitespace` gives for `s`: its maximal runs of
/// characters that are not ASCII whitespace, in order.
pub open spec fn ascii_words(s: Seq<char>) -> Seq<Seq<char>> {
    let st = ws_scan(s);
    if st.1.len() > 0 {
        st.0.push(st.1)
    } else {
        st.0
    }
}

proof fn lemma_scan_unquoted(s: Seq<char>)
    requires
        !s.contains('\''),
        !s.contains('"'),
    ensures
        split_scan(s) == (ws_scan(s).0, ws_scan(s).1, false, false),
    decreases s.len(),
{
    if s.len() > 0 {
        let d = s.drop_last();
        assert(!d.contains('\'')) by {
            if d.contains('\'') {
                let j = choose|j: int| 0 <= j < d.len() && d[j] == '\'';
                assert(s[j] == '\'');
            }
        }
        assert(!d.contains('"')) by {
            if d.contains('"') {
                let j = choose|j: int| 0 <= j < d.len() && d[j] == '"';
                assert(s[j] == '"');
            }
        }
        lemma_scan_unquoted(d);
        assert(s[s.len() - 1] == s.last());
    }
}

/// Without quotes, splitting a line is splitting at ASCII whitespace, as
/// `str::split_ascii_whitespace` does.
pub proof fn lemma_split_args_unquoted(s: Seq<char>)
    requires
        !s.contains('\''),
        !s.contains('"'),
    ensures
        split_args_spec(s) == ascii_words(s),
{
    lemma_scan_unquoted(s);
}

/// The texts of a sequence of strings.
pub open spec fn string_views(v: Seq<String>) -> Seq<Seq<char>> {
    v.map_values(|s: String| s@)
}

/// Splits a command line into arguments at ASCII whitespace, keeping
/// quoted runs (in `'` or `"`) together and dropping the quotes.
pub fn split_args(line: &str) -> (r: Vec<String>)
    ensures
        string_views(r@) == split_args_spec(line@),
{
    let cs = chars_of(line);
    let mut parts: Vec<String> = Vec::new();
    let mut current: Vec<char> = Vec::new();
    let mut in_single = false;
    let mut in_double = false;
    let mut i: usize = 0;
    while i < cs.len()
        invariant
            i <= cs@.len(),
            cs@ == line@,
            split_scan(cs@.take(i as int)) == (string_views(parts@), current@, in_single, in_double),
        decreases cs@.len() - i,
    {
        let ch = cs[i];
        assert(cs@.take(i + 1).drop_last() =~= cs@.take(i as int));
        assert(cs@.take(i + 1).last() == ch);
        if ch == '\'' && !in_double {
            in_single = !in_single;
        } else if ch == '"' && !in_single {
            in_double = !in_double;
        } else if ascii_whitespace(ch) && !in_single && !in_double {
            if current.len() > 0 {
                let word = string_from_chars(&current);
                let ghost before = parts@;
                parts.push(word);
                assert(string_views(parts@) =~= string_views(before).push(current@));
                current = Vec::new();
            }
        } else {
            current.push(ch);
        }
        i = i + 1;
    }
    assert(cs@.take(cs@.len() as int) =~= cs@);
    if current.len() > 0 {
        let word = string_from_chars(&current);
        let ghost before = parts@;
        parts.push(word);
        assert(string_views(parts@) =~= string_views(before).push(current@));
    }
    parts
}

// ───────────────────────── reading a command ─────────────────────────

/// Where the mode-specific arguments of a command stand, as indices into
/// its arguments (an index past the end means the argument was left out
/// and its default applies), and the integer arguments already resolved.
#[derive(Clone, Copy, Debug)]
#[allow(inconsistent_fields)]
pub enum CommandMode {
    /// `normal`: a box of half-sizes `range..range + 3` filled with `count`
    /// particles; the speed expression is the last later argument that
    /// holds `=` or `;`.
    Normal { range: usize, count: u32, lifespan: u32, speed_expr: Option<usize> },
    /// `conditional`: a box of half-sizes `range..range + 3`, a condition,
    /// a step, then the speed expression.
    Conditional { range: usize, condition: usize, step: usize, lifespan: u32, speed_expr: usize },
    /// The parameter types: `t` runs from `t_begin` to `t_end` by `t_step`
    /// through the shape expression, `cpt` particles a tick when animated.
    Parameter {
        t_begin: usize,
        t_end: usize,
        shape: usize,
        t_step: usize,
        cpt: u32,
        lifespan: u32,
        speed_expr: usize,
        speed_step: usize,
    },
}

/// Where the arguments of a command stand: its configuration, the index of
/// the centre's x (y and z follow), of the red component when the type
/// takes a colour (green, blue and alpha follow), of the velocity's x, and
/// the mode-specific arguments.
#[derive(Clone, Copy, Debug)]
pub struct CommandLayout {
    pub config: CommandConfig,
    pub center: usize,
    pub color: Option<usize>,
    pub velocity: usize,
    pub mode: CommandMode,
}

/// A command read from a line: its arguments, its type in lower case, and
/// where each argument stands.
pub struct ParsedCommand {
    pub parts: Vec<String>,
    pub command_type: String,
    pub layout: CommandLayout,
}

/// Whether the first argument (in lower case) names the command itself,
/// `particleex` or `particlex`, with or without a slash.
pub open spec fn is_command_word(w: Seq<char>) -> bool {
    contains_word(w, seq!['p', 'a', 'r', 't', 'i', 'c', 'l', 'e', 'x'])
        || contains_word(w, seq!['p', 'a', 'r', 't', 'i', 'c', 'l', 'e', 'e', 'x'])
}

/// The index of the command type among the arguments: 1 after a leading
/// command word, else 0.
pub open spec fn type_slot(parts: Seq<Seq<char>>) -> int {
    if is_command_word(lowercase(parts[0])) {
        1
    } else {
        0
    }
}

/// The argument at `i`, if there is one.
pub open spec fn part_at(parts: Seq<Seq<char>>, i: int) -> Option<Seq<char>> {
    if 0 <= i < parts.len() {
        Some(parts[i])
    } else {
        None
    }
}

/// The `u32` at argument `i`, or `default` when it is missing or no `u32`.
pub open spec fn int_arg(parts: Seq<Seq<char>>, i: int, default: u32) -> u32 {
    match part_at(parts, i) {
        Some(s) => match parse_u32_spec(s) {
            Some(v) => v,
            None => default,
        },
        None => default,
    }
}

/// The lifespan at argument `i`, 200 ticks by default.
pub open spec fn lifespan_arg(parts: Seq<Seq<char>>, i: int) -> u32 {
    match part_at(parts, i) {
        Some(s) => lifespan_spec(s, 200),
        None => 200,
    }
}

/// Whether `s` reads as an expression: it holds `=` or `;`.
pub open spec fn has_expr_char(s: Seq<char>) -> bool {
    s.contains('=') || s.contains(';')
}

/// The last index in `from..to` whose argument reads as an expression.
pub open spec fn last_expr_slot(parts: Seq<Seq<char>>, from: int, to: int) -> Option<int>
    decreases to - from,
{
    if to <= from {
        None
    } else if has_expr_char(parts[to - 1]) {
        Some(to - 1)
    } else {
        last_expr_slot(parts, from, to - 1)
    }
}

/// The mode-specific layout of a command whose velocity ends before `after`.
pub open spec fn mode_spec(parts: Seq<Seq<char>>, cfg: CommandConfig, after: int) -> CommandMode {
    if cfg.is_conditional {
        CommandMode::Conditional {
            range: after as usize,
            condition: (after + 3) as usize,
            step: (after + 4) as usize,
            lifespan: lifespan_arg(parts, after + 5),
            speed_expr: (after + 6) as usize,
        }
    } else if cfg.is_normal {
        let n = int_arg(parts, after + 3, 1);
        CommandMode::Normal {
            range: after as usize,
            count: if n < 1 { 1 } else { n },
            lifespan: lifespan_arg(parts, after + 4),
            speed_expr: match last_expr_slot(parts, after + 5, parts.len() as int) {
                Some(j) => Some(j as usize),
                None => None,
            },
        }
    } else if cfg.is_animated {
        let c = int_arg(parts, after + 4, 10);
        CommandMode::Parameter {
            t_begin: after as usize,
            t_end: (after + 1) as usize,
            shape: (after + 2) as usize,
            t_step: (after + 3) as usize,
            cpt: if c == 0 { 10 } else { c },
            lifespan: lifespan_arg(parts, after + 5),
            speed_expr: (after + 6) as usize,
            speed_step: (after + 7) as usize,
        }
    } else {
        CommandMode::Parameter {
            t_begin: after as usize,
            t_end: (after + 1) as usize,
            shape: (after + 2) as usize,
            t_step: (after + 3) as usize,
            cpt: 10,
            lifespan: lifespan_arg(parts, after + 4),
            speed_expr: (after + 5) as usize,
            speed_step: (after + 6) as usize,
        }
    }
}

/// The layout of the command with arguments `parts`: none with fewer than
/// three arguments or an unknown type. After the type come the particle
/// name, the centre, the colour (for the types that take one), the
/// velocity, and the mode-specific arguments.
pub open spec fn layout_spec(parts: Seq<Seq<char>>) -> Option<CommandLayout> {
    if parts.len() < 3 {
        None
    } else {
        layout_with(parts, type_slot(parts), lowercase(parts[type_slot(parts)]))
    }
}

/// The layout of the command with arguments `parts` whose type, at index
/// `first`, reads `ty` in lower case: none for an unknown type.
pub open spec fn layout_with(parts: Seq<Seq<char>>, first: int, ty: Seq<char>) -> Option<CommandLayout> {
    match command_config(without_hyphens(ty)) {
        None => None,
        Some(cfg) => {
            let velocity = if cfg.has_color {
                first + 9
            } else {
                first + 5
            };
            Some(
                CommandLayout {
                    config: cfg,
                    center: (first + 2) as usize,
                    color: if cfg.has_color {
                        Some((first + 5) as usize)
                    } else {
                        None
                    },
                    velocity: velocity as usize,
                    mode: mode_spec(parts, cfg, velocity + 3),
                },
            )
        },
    }
}

/// The count per tick of a parameter command whose type stands at `first`
/// and reads `ty`: on an animated type it is the number written in the
/// argument after the step when that argument is a positive decimal
/// number that fits a `u32`, and 10 when the argument reads 0 or is left
/// out; the types that are not animated take 10 a tick.
pub proof fn lemma_count_per_tick(parts: Seq<Seq<char>>, first: int, ty: Seq<char>)
    requires
        0 <= first <= 1,
        layout_with(parts, first, ty) is Some,
    ensures
        ({
            let l = layout_with(parts, first, ty)->0;
            l.mode matches CommandMode::Parameter { t_step, cpt, .. } ==> {
                let k = t_step + 1;
                &&& l.config.is_animated && 0 <= k < parts.len() && parts[k].len() > 0 && all_digits(
                    parts[k],
                ) && 0 < digits_value(parts[k]) <= u32::MAX ==> cpt == digits_value(parts[k])
                &&& l.config.is_animated && 0 <= k < parts.len() && parts[k].len() > 0 && all_digits(
                    parts[k],
                ) && digits_value(parts[k]) == 0 ==> cpt == 10
                &&& l.config.is_animated && k >= parts.len() ==> cpt == 10
                &&& !l.config.is_animated ==> cpt == 10
            }
        }),
{
    let l = layout_with(parts, first, ty)->0;
    if let CommandMode::Parameter { t_step, cpt, .. } = l.mode {
        let k = t_step + 1;
        if 0 <= k < parts.len() && parts[k].len() > 0 && all_digits(parts[k]) {
            assert(is_digit(parts[k][0]));
        }
    }
}

/// The particle count of a normal command whose type stands at `first`
/// and reads `ty`: the number written in the argument after the box's
/// three half-sizes when that is a positive decimal number that fits a
/// `u32`, and 1 when it reads 0 or is left out.
pub proof fn lemma_normal_count(parts: Seq<Seq<char>>, first: int, ty: Seq<char>)
    requires
        0 <= first <= 1,
        layout_with(parts, first, ty) is Some,
    ensures
        ({
            let l = layout_with(parts, first, ty)->0;
            l.mode matches CommandMode::Normal { range, count, .. } ==> {
                let k = range + 3;
                &&& 0 <= k < parts.len() && parts[k].len() > 0 && all_digits(parts[k]) && 0
                    < digits_value(parts[k]) <= u32::MAX ==> count == digits_value(parts[k])
                &&& 0 <= k < parts.len() && parts[k].len() > 0 && all_digits(parts[k])
                    && digits_value(parts[k]) == 0 ==> count == 1
                &&& k >= parts.len() ==> count == 1
            }
        }),
{
    let l = layout_with(parts, first, ty)->0;
    if let CommandMode::Normal { range, count, .. } = l.mode {
        let k = range + 3;
        if 0 <= k < parts.len() && parts[k].len() > 0 && all_digits(parts[k]) {
            assert(is_digit(parts[k][0]));
        }
    }
}

/// `c` is what reading the arguments `parts` gives.
pub open spec fn read_from(c: ParsedCommand, parts: Seq<Seq<char>>) -> bool {
    &&& string_views(c.parts@) == parts
    &&& c.command_type@ == lowercase(parts[type_slot(parts)])
    &&& layout_spec(parts) == Some(c.layout)
}

fn int_arg_exec(parts: &Vec<String>, i: usize, default: u32) -> (r: u32)
    ensures
        r == int_arg(string_views(parts@), i as int, default),
{
    if i < parts.len() {
        parse_int(parts[i].as_str(), default)
    } else {
        default
    }
}

fn lifespan_arg_exec(parts: &Vec<String>, i: usize) -> (r: u32)
    ensures
        r == lifespan_arg(string_views(parts@), i as int),
{
    if i < parts.len() {
        resolve_lifespan(parts[i].as_str(), 200)
    } else {
        200
    }
}

fn has_expr_char_exec(s: &str) -> (b: bool)
    ensures
        b == has_expr_char(s@),
{
    let cs = chars_of(s);
    let mut i: usize = 0;
    while i < cs.len()
        invariant
            i <= cs@.len(),
            cs@ == s@,
            forall|j: int| 0 <= j < i ==> cs@[j] != '=' && cs@[j] != ';',
        decreases cs@.len() - i,
    {
        if cs[i] == '=' || cs[i] == ';' {
            assert(cs@[i as int] == cs@[i as int]);
            return true;
        }
        i = i + 1;
    }
    false
}

fn last_expr_slot_exec(parts: &Vec<String>, from: usize) -> (r: Option<usize>)
    ensures
        match last_expr_slot(string_views(parts@), from as int, parts@.len() as int) {
            Some(j) => r == Some(j as usize) && from <= j < parts@.len(),
            None => r is None,
        },
{
    let ghost v = string_views(parts@);
    let mut found: Option<usize> = None;
    let mut i: usize = from;
    if i > parts.len() {
        return None;
    }
    while i < parts.len()
        invariant
            from <= i <= parts@.len(),
            v == string_views(parts@),
            match last_expr_slot(v, from as int, i as int) {
                Some(j) => found == Some(j as usize) && from <= j < i,
                None => found is None,
            },
        decreases parts@.len() - i,
    {
        if has_expr_char_exec(parts[i].as_str()) {
            found = Some(i);
        }
        i = i + 1;
    }
    found
}

/// Whether the first argument, in lower case, names the command itself.
pub fn names_command(w: &str) -> (b: bool)
    ensures
        b == is_command_word(w@),
{
    let cs = chars_of(w);
    contains_chars(&cs, &['p', 'a', 'r', 't', 'i', 'c', 'l', 'e', 'x'])
        || contains_chars(&cs, &['p', 'a', 'r', 't', 'i', 'c', 'l', 'e', 'e', 'x'])
}

/// Reads a command from its arguments `parts`, its type standing at
/// `first` (0, or 1 after a leading command word) and reading
/// `command_type` in lower case; `None` for an unknown type.
pub fn read_command(parts: Vec<String>, first: usize, command_type: String) -> (r: Option<ParsedCommand>)
    requires
        first <= 1,
    ensures
        match r {
            Some(c) => {
                &&& string_views(c.parts@) == string_views(parts@)
                &&& c.command_type@ == command_type@
                &&& layout_with(string_views(parts@), first as int, command_type@) == Some(c.layout)
            },
            None => layout_with(string_views(parts@), first as int, command_type@) is None,
        },
{
    let cfg = match get_command_config(command_type.as_str()) {
        Some(c) => c,
        None => return None,
    };
    let velocity: usize = if cfg.has_color {
        first + 9
    } else {
        first + 5
    };
    let after = velocity + 3;
    let mode = if cfg.is_conditional {
        CommandMode::Conditional {
            range: after,
            condition: after + 3,
            step: after + 4,
            lifespan: lifespan_arg_exec(&parts, after + 5),
            speed_expr: after + 6,
        }
    } else if cfg.is_normal {
        let n = int_arg_exec(&parts, after + 3, 1);
        CommandMode::Normal {
            range: after,
            count: if n < 1 {
                1
            } else {
                n
            },
            lifespan: lifespan_arg_exec(&parts, after + 4),
            speed_expr: last_expr_slot_exec(&parts, after + 5),
        }
    } else if cfg.is_animated {
        let c = int_arg_exec(&parts, after + 4, 10);
        CommandMode::Parameter {
            t_begin: after,
            t_end: after + 1,
            shape: after + 2,
            t_step: after + 3,
            cpt: if c == 0 {
                10
            } else {
                c
            },
            lifespan: lifespan_arg_exec(&parts, after + 5),
            speed_expr: after + 6,
            speed_step: after + 7,
        }
    } else {
        CommandMode::Parameter {
            t_begin: after,
            t_end: after + 1,
            shape: after + 2,
            t_step: after + 3,
            cpt: 10,
            lifespan: lifespan_arg_exec(&parts, after + 4),
            speed_expr: after + 5,
            speed_step: after + 6,
        }
    };
    let layout = CommandLayout {
        config: cfg,
        center: first + 2,
        color: if cfg.has_color {
            Some(first + 5)
        } else {
            None
        },
        velocity,
        mode,
    };
    Some(ParsedCommand { parts, command_type, layout })
}

/// Reads a command from its arguments; `None` when there are fewer than
/// three or the type is unknown.
pub fn parse_command_parts(parts: Vec<String>) -> (r: Option<ParsedCommand>)
    ensures
        match r {
            Some(c) => read_from(c, string_views(parts@)),
            None => layout_spec(string_views(parts@)) is None,
        },
{
    let ghost v = string_views(parts@);
    if parts.len() < 3 {
        return None;
    }
    let first_lower = to_lowercase(parts[0].as_str());
    let first: usize = if names_command(first_lower.as_str()) {
        1
    } else {
        0
    };
    assert(v[0] == parts@[0]@);
    assert(v[first as int] == parts@[first as int]@);
    let command_type = to_lowercase(parts[first].as_str());
    read_command(parts, first, command_type)
}

/// Reads a command line: splits it into arguments and reads them.
pub fn parse_command(line: &str) -> (r: Option<ParsedCommand>)
    ensures
        match r {
            Some(c) => read_from(c, split_args_spec(line@)),
            None => layout_spec(split_args_spec(line@)) is None,
        },
{
    let parts = split_args(line);
    parse_command_parts(parts)
}

// ───────────────────────── validating a line ─────────────────────────

/// Why a line is not a command.
#[derive(Clone, Copy, Debug, PartialEq, Eq)]
pub enum CommandError {
    /// The line holds only whitespace.
    Empty,
    /// The line does not start with `particleex` or `particlex` (with or
    /// without a slash, in any case).
    NotACommand,
    /// The arguments could not be read: too few, or an unknown type.
    BadArguments,
}

/// Whether a lower-case line starts with `particleex`, `/particleex`,
/// `particlex` or `/particlex`.
pub open spec fn is_command_line(lower: Seq<char>) -> bool {
    ||| starts_with(lower, seq!['p', 'a', 'r', 't', 'i', 'c', 'l', 'e', 'e', 'x'])
    ||| starts_with(lower, seq!['/', 'p', 'a', 'r', 't', 'i', 'c', 'l', 'e', 'e', 'x'])
    ||| starts_with(lower, seq!['p', 'a', 'r', 't', 'i', 'c', 'l', 'e', 'x'])
    ||| starts_with(lower, seq!['/', 'p', 'a', 'r', 't', 'i', 'c', 'l', 'e', 'x'])
}

/// What validating `line` gives: an error for a blank line, for a line
/// that is no command, and for one whose arguments cannot be read;
/// otherwise the command read from the trimmed line.
pub open spec fn validated(line: Seq<char>, r: Result<ParsedCommand, CommandError>) -> bool {
    let t = trimmed(line);
    if t.len() == 0 {
        r == Err::<ParsedCommand, CommandError>(CommandError::Empty)
    } else if !is_command_line(lowercase(t)) {
        r == Err::<ParsedCommand, CommandError>(CommandError::NotACommand)
    } else if layout_spec(split_args_spec(t)) is None {
        r == Err::<ParsedCommand, CommandError>(CommandError::BadArguments)
    } else {
        r matches Ok(c) && read_from(c, split_args_spec(t))
    }
}

fn is_command_line_exec(lower: &Vec<char>) -> (b: bool)
    ensures
        b == is_command_line(lower@),
{
    matches_at(lower, &['p', 'a', 'r', 't', 'i', 'c', 'l', 'e', 'e', 'x'], 0)
        || matches_at(lower, &['/', 'p', 'a', 'r', 't', 'i', 'c', 'l', 'e', 'e', 'x'], 0)
        || matches_at(lower, &['p', 'a', 'r', 't', 'i', 'c', 'l', 'e', 'x'], 0)
        || matches_at(lower, &['/', 'p', 'a', 'r', 't', 'i', 'c', 'l', 'e', 'x'], 0)
}

/// Whether a line, in lower case, starts with `particleex`, `/particleex`,
/// `particlex` or `/particlex`.
pub fn is_command_text(lower: &str) -> (b: bool)
    ensures
        b == is_command_line(lower@),
{
    let cs = chars_of(lower);
    is_command_line_exec(&cs)
}

/// Checks a command line and reads it. The description shown for a valid
/// command is made from the command returned.
#[verifier::rlimit(40)]
pub fn validate_command(line: &str) -> (r: Result<ParsedCommand, CommandError>)
    ensures
        validated(line@, r),
{
    let cs = chars_of(line);
    let t = trim_chars(&cs);
    if t.len() == 0 {
        return Err(CommandError::Empty);
    }
    let text = string_from_chars(&t);
    let lower = to_lowercase(text.as_str());
    let lower_chars = chars_of(lower.as_str());
    if !is_command_line_exec(&lower_chars) {
        return Err(CommandError::NotACommand);
    }
    match parse_command(text.as_str()) {
        Some(c) => Ok(c),
        None => Err(CommandError::BadArguments),
    }
}

// ───────────────────────── expressions ─────────────────────────

/// The binary operators of the expression language.
#[derive(Clone, Copy, Debug, PartialEq, Eq)]
pub enum BinOp {
    Add,
    Sub,
    Mul,
    Div,
    Mod,
    Pow,
    Eq,
    Ne,
    Lt,
    Gt,
    Le,
    Ge,
    And,
    Or,
}

} // verus!
