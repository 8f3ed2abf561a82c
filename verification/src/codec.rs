//! The persistence codec: a structured, human-readable text encoding of the
//! adventure graph, written one entry per line, e.g.
//!
//! ```text
//! (0,0)=Node(name:"intro",details:Level("intro"))
//! (1,0)=Road
//! ```
//!
//! The encoding and the decoding are both specified as functions on
//! character sequences, and decoding is proved to invert encoding.

use vstd::prelude::*;

use crate::adventure::Adventure;
use crate::adventure::AdventureNode;
use crate::adventure::DetailsModel;
use crate::adventure::ElemModel;
use crate::adventure::MapElement;
use crate::adventure::NodeDetails;
use crate::adventure::entries_map;
use crate::adventure::keys_distinct;
use crate::adventure::lemma_entries_map_dom;
use crate::pos::Pos;

verus! {

/// How a codec operation fails: the file cannot be reached at all, or its
/// content does not match the expected schema.
#[derive(Clone, Copy, Debug, PartialEq, Eq, Structural)]
pub enum CodecError {
    Io,
    Format,
}

// ---------------------------------------------------------------------------
// Characters and digits
// ---------------------------------------------------------------------------

pub open spec fn is_digit(c: char) -> bool {
    c == '0' || c == '1' || c == '2' || c == '3' || c == '4' || c == '5' || c == '6' || c == '7'
        || c == '8' || c == '9'
}

pub open spec fn digit_val(c: char) -> nat {
    if c == '0' {
        0
    } else if c == '1' {
        1
    } else if c == '2' {
        2
    } else if c == '3' {
        3
    } else if c == '4' {
        4
    } else if c == '5' {
        5
    } else if c == '6' {
        6
    } else if c == '7' {
        7
    } else if c == '8' {
        8
    } else {
        9
    }
}

pub open spec fn digit_char(d: nat) -> char {
    if d == 0 {
        '0'
    } else if d == 1 {
        '1'
    } else if d == 2 {
        '2'
    } else if d == 3 {
        '3'
    } else if d == 4 {
        '4'
    } else if d == 5 {
        '5'
    } else if d == 6 {
        '6'
    } else if d == 7 {
        '7'
    } else if d == 8 {
        '8'
    } else {
        '9'
    }
}

// ---------------------------------------------------------------------------
// Fixed tags and punctuation of the format
// ---------------------------------------------------------------------------

pub open spec fn lit_road() -> Seq<char> {
    seq!['R', 'o', 'a', 'd']
}

pub open spec fn lit_node_open() -> Seq<char> {
    seq!['N', 'o', 'd', 'e', '(', 'n', 'a', 'm', 'e', ':', '"']
}

pub open spec fn lit_details() -> Seq<char> {
    seq![',', 'd', 'e', 't', 'a', 'i', 'l', 's', ':']
}

pub open spec fn lit_level_open() -> Seq<char> {
    seq!['L', 'e', 'v', 'e', 'l', '(', '"']
}

pub open spec fn lit_adventure_open() -> Seq<char> {
    seq!['A', 'd', 'v', 'e', 'n', 't', 'u', 'r', 'e', '(', '"']
}

// ---------------------------------------------------------------------------
// Encoding
// ---------------------------------------------------------------------------

/// The decimal digits of `n`, most significant first.
pub open spec fn enc_nat(n: nat) -> Seq<char>
    decreases n,
{
    if n < 10 {
        seq![digit_char(n)]
    } else {
        enc_nat(n / 10).push(digit_char(n % 10))
    }
}

/// A signed decimal integer.
pub open spec fn enc_int(i: int) -> Seq<char> {
    if i < 0 {
        seq!['-'] + enc_nat((-i) as nat)
    } else {
        enc_nat(i as nat)
    }
}

/// The escape of one string character: quote and backslash get a backslash.
pub open spec fn esc_char(c: char) -> Seq<char> {
    if c == '"' || c == '\\' {
        seq!['\\', c]
    } else {
        seq![c]
    }
}

/// The escaped body of a quoted string.
pub open spec fn esc_str(s: Seq<char>) -> Seq<char>
    decreases s.len(),
{
    if s.len() == 0 {
        Seq::empty()
    } else {
        esc_char(s[0]) + esc_str(s.skip(1))
    }
}

pub open spec fn enc_details(d: DetailsModel) -> Seq<char> {
    match d {
        DetailsModel::Level(t) => lit_level_open() + esc_str(t) + seq!['"', ')'],
        DetailsModel::Adventure(t) => lit_adventure_open() + esc_str(t) + seq!['"', ')'],
    }
}

pub open spec fn enc_elem(e: ElemModel) -> Seq<char> {
    match e {
        ElemModel::Road => lit_road(),
        ElemModel::Node { name, details } => lit_node_open() + esc_str(name) + seq!['"']
            + lit_details() + enc_details(details) + seq![')'],
    }
}

pub open spec fn enc_entry(p: Pos, e: ElemModel) -> Seq<char> {
    seq!['('] + enc_int(p.x as int) + seq![','] + enc_int(p.y as int) + seq![')', '='] + enc_elem(
        e,
    ) + seq!['\n']
}

/// The whole file: the entries one after another, each ending in a newline.
pub open spec fn enc_entries(es: Seq<(Pos, ElemModel)>) -> Seq<char>
    decreases es.len(),
{
    if es.len() == 0 {
        Seq::empty()
    } else {
        enc_entry(es[0].0, es[0].1) + enc_entries(es.skip(1))
    }
}

// ---------------------------------------------------------------------------
// Decoding
// ---------------------------------------------------------------------------

pub open spec fn starts_with(s: Seq<char>, l: Seq<char>) -> bool {
    s.len() >= l.len() && s.take(l.len() as int) == l
}

/// Consume an expected literal, or fail.
pub open spec fn dec_lit(s: Seq<char>, l: Seq<char>) -> Option<Seq<char>> {
    if starts_with(s, l) {
        Some(s.skip(l.len() as int))
    } else {
        None
    }
}

/// Greatest coordinate magnitude the format accepts; decoding fails beyond it.
pub open spec fn coord_cap() -> nat {
    2147483648
}

/// Consume decimal digits into an accumulator, stopping at the first
/// non-digit; fail if the value grows past `coord_cap`.
pub open spec fn dec_nat_loop(s: Seq<char>, acc: nat) -> Option<(nat, Seq<char>)>
    decreases s.len(),
{
    if s.len() == 0 || !is_digit(s[0]) {
        Some((acc, s))
    } else {
        let v = acc * 10 + digit_val(s[0]);
        if v > coord_cap() {
            None
        } else {
            dec_nat_loop(s.skip(1), v)
        }
    }
}

/// Consume an unsigned decimal number: at least one digit.
pub open spec fn dec_nat(s: Seq<char>) -> Option<(nat, Seq<char>)> {
    if s.len() > 0 && is_digit(s[0]) {
        dec_nat_loop(s, 0)
    } else {
        None
    }
}

/// Consume a signed decimal number that fits a 32-bit signed integer.
pub open spec fn dec_int(s: Seq<char>) -> Option<(int, Seq<char>)> {
    if s.len() > 0 && s[0] == '-' {
        match dec_nat(s.skip(1)) {
            Some((n, r)) => Some((-(n as int), r)),
            None => None,
        }
    } else {
        match dec_nat(s) {
            Some((n, r)) => if n < coord_cap() {
                Some((n as int, r))
            } else {
                None
            },
            None => None,
        }
    }
}

/// Consume the escaped body of a quoted string up to and including the
/// closing quote, returning the unescaped content.
pub open spec fn dec_str(s: Seq<char>) -> Option<(Seq<char>, Seq<char>)>
    decreases s.len(),
{
    if s.len() == 0 {
        None
    } else if s[0] == '"' {
        Some((Seq::empty(), s.skip(1)))
    } else if s[0] == '\\' {
        if s.len() >= 2 && (s[1] == '"' || s[1] == '\\') {
            match dec_str(s.skip(2)) {
                Some((t, r)) => Some((seq![s[1]] + t, r)),
                None => None,
            }
        } else {
            None
        }
    } else {
        match dec_str(s.skip(1)) {
            Some((t, r)) => Some((seq![s[0]] + t, r)),
            None => None,
        }
    }
}

pub open spec fn dec_details(s: Seq<char>) -> Option<(DetailsModel, Seq<char>)> {
    match dec_lit(s, lit_level_open()) {
        Some(r1) => match dec_str(r1) {
            Some((t, r2)) => match dec_lit(r2, seq![')']) {
                Some(r3) => Some((DetailsModel::Level(t), r3)),
                None => None,
            },
            None => None,
        },
        None => match dec_lit(s, lit_adventure_open()) {
            Some(r1) => match dec_str(r1) {
                Some((t, r2)) => match dec_lit(r2, seq![')']) {
                    Some(r3) => Some((DetailsModel::Adventure(t), r3)),
                    None => None,
                },
                None => None,
            },
            None => None,
        },
    }
}

pub open spec fn dec_elem(s: Seq<char>) -> Option<(ElemModel, Seq<char>)> {
    match dec_lit(s, lit_road()) {
        Some(r) => Some((ElemModel::Road, r)),
        None => match dec_lit(s, lit_node_open()) {
            Some(r1) => match dec_str(r1) {
                Some((name, r2)) => match dec_lit(r2, lit_details()) {
                    Some(r3) => match dec_details(r3) {
                        Some((d, r4)) => match dec_lit(r4, seq![')']) {
                            Some(r5) => Some((ElemModel::Node { name, details: d }, r5)),
                            None => None,
                        },
                        None => None,
                    },
                    None => None,
                },
                None => None,
            },
            None => None,
        },
    }
}

pub open spec fn dec_entry(s: Seq<char>) -> Option<((Pos, ElemModel), Seq<char>)> {
    match dec_lit(s, seq!['(']) {
        Some(r1) => match dec_int(r1) {
            Some((x, r2)) => match dec_lit(r2, seq![',']) {
                Some(r3) => match dec_int(r3) {
                    Some((y, r4)) => match dec_lit(r4, seq![')', '=']) {
                        Some(r5) => match dec_elem(r5) {
                            Some((e, r6)) => match dec_lit(r6, seq!['\n']) {
                                Some(r7) => Some(((Pos { x: x as i32, y: y as i32 }, e), r7)),
                                None => None,
                            },
                            None => None,
                        },
                        None => None,
                    },
                    None => None,
                },
                None => None,
            },
            None => None,
        },
        None => None,
    }
}

/// Decode a whole file into its entry sequence. An empty file is an empty
/// graph; anything that is not a well-formed sequence of entries fails.
pub open spec fn dec_entries(s: Seq<char>) -> Option<Seq<(Pos, ElemModel)>>
    decreases s.len(),
{
    if s.len() == 0 {
        Some(Seq::empty())
    } else {
        match dec_entry(s) {
            Some((pe, r)) => if r.len() < s.len() {
                match dec_entries(r) {
                    Some(tail) => Some(seq![pe] + tail),
                    None => None,
                }
            } else {
                None
            },
            None => None,
        }
    }
}

// ---------------------------------------------------------------------------
// Decoding inverts encoding
// ---------------------------------------------------------------------------

proof fn lemma_dec_lit_concat(l: Seq<char>, rest: Seq<char>)
    ensures
        dec_lit(l + rest, l) == Some(rest),
{
    assert((l + rest).take(l.len() as int) =~= l);
    assert((l + rest).skip(l.len() as int) =~= rest);
}

proof fn lemma_dec_lit_mismatch(s: Seq<char>, l: Seq<char>)
    requires
        l.len() > 0,
        s.len() == 0 || s[0] != l[0],
    ensures
        dec_lit(s, l) == None::<Seq<char>>,
{
    if s.len() >= l.len() {
        if s.take(l.len() as int) == l {
            assert(s.take(l.len() as int)[0] == s[0]);
        }
    }
}

/// The accumulator value after consuming the digits of `n`.
pub open spec fn dec_shift(acc: nat, n: nat) -> nat
    decreases n,
{
    if n < 10 {
        acc * 10 + n
    } else {
        dec_shift(acc, n / 10) * 10 + n % 10
    }
}

proof fn lemma_dec_shift_zero(n: nat)
    ensures
        dec_shift(0, n) == n,
    decreases n,
{
    if n >= 10 {
        lemma_dec_shift_zero(n / 10);
    }
}

proof fn lemma_enc_nat_first_digit(n: nat)
    ensures
        enc_nat(n).len() >= 1,
        is_digit(enc_nat(n)[0]),
    decreases n,
{
    if n >= 10 {
        lemma_enc_nat_first_digit(n / 10);
    }
}

proof fn lemma_dec_nat_loop(n: nat, rest: Seq<char>, acc: nat)
    requires
        dec_shift(acc, n) <= coord_cap(),
    ensures
        dec_nat_loop(enc_nat(n) + rest, acc) == dec_nat_loop(rest, dec_shift(acc, n)),
    decreases n,
{
    if n < 10 {
        let s = enc_nat(n) + rest;
        assert(s[0] == digit_char(n));
        assert(digit_val(digit_char(n)) == n);
        assert(s.skip(1) =~= rest);
    } else {
        let pre = enc_nat(n / 10);
        let d = digit_char(n % 10);
        let mid = dec_shift(acc, n / 10);
        assert(enc_nat(n) + rest =~= pre + (seq![d] + rest));
        assert(mid <= mid * 10) by (nonlinear_arith)
            requires
                mid >= 0,
        ;
        lemma_dec_nat_loop(n / 10, seq![d] + rest, acc);
        assert((seq![d] + rest)[0] == d);
        assert(digit_val(d) == n % 10);
        assert((seq![d] + rest).skip(1) =~= rest);
        assert(mid * 10 + n % 10 == dec_shift(acc, n));
    }
}

proof fn lemma_dec_nat(n: nat, rest: Seq<char>)
    requires
        n <= coord_cap(),
        rest.len() == 0 || !is_digit(rest[0]),
    ensures
        dec_nat(enc_nat(n) + rest) == Some((n, rest)),
{
    lemma_dec_shift_zero(n);
    lemma_dec_nat_loop(n, rest, 0);
    lemma_enc_nat_first_digit(n);
    assert((enc_nat(n) + rest)[0] == enc_nat(n)[0]);
}

proof fn lemma_dec_int(x: int, rest: Seq<char>)
    requires
        -2147483648 <= x <= 2147483647,
        rest.len() == 0 || !is_digit(rest[0]),
    ensures
        dec_int(enc_int(x) + rest) == Some((x, rest)),
{
    if x < 0 {
        let m = (-x) as nat;
        let s = enc_int(x) + rest;
        assert(s =~= seq!['-'] + (enc_nat(m) + rest));
        assert(s[0] == '-');
        assert(s.skip(1) =~= enc_nat(m) + rest);
        lemma_dec_nat(m, rest);
    } else {
        let s = enc_int(x) + rest;
        lemma_enc_nat_first_digit(x as nat);
        assert(s[0] == enc_nat(x as nat)[0]);
        assert(s[0] != '-');
        lemma_dec_nat(x as nat, rest);
    }
}

proof fn lemma_dec_str(t: Seq<char>, rest: Seq<char>)
    ensures
        dec_str(esc_str(t) + seq!['"'] + rest) == Some((t, rest)),
    decreases t.len(),
{
    let s = esc_str(t) + seq!['"'] + rest;
    if t.len() == 0 {
        assert(s =~= seq!['"'] + rest);
        assert(s[0] == '"');
        assert(s.skip(1) =~= rest);
        assert(dec_str(s) == Some((Seq::<char>::empty(), rest)));
        assert(Seq::<char>::empty() =~= t);
    } else {
        let c = t[0];
        let t1 = t.skip(1);
        lemma_dec_str(t1, rest);
        if c == '"' || c == '\\' {
            assert(s =~= seq!['\\', c] + (esc_str(t1) + seq!['"'] + rest));
            assert(s[0] == '\\');
            assert(s[1] == c);
            assert(s.skip(2) =~= esc_str(t1) + seq!['"'] + rest);
            assert(seq![c] + t1 =~= t);
        } else {
            assert(s =~= seq![c] + (esc_str(t1) + seq!['"'] + rest));
            assert(s[0] == c);
            assert(s.skip(1) =~= esc_str(t1) + seq!['"'] + rest);
            assert(seq![c] + t1 =~= t);
        }
    }
}

proof fn lemma_dec_details(d: DetailsModel, rest: Seq<char>)
    ensures
        dec_details(enc_details(d) + rest) == Some((d, rest)),
{
    match d {
        DetailsModel::Level(t) => {
            let s = enc_details(d) + rest;
            assert(s =~= lit_level_open() + (esc_str(t) + seq!['"'] + (seq![')'] + rest)));
            lemma_dec_lit_concat(lit_level_open(), esc_str(t) + seq!['"'] + (seq![')'] + rest));
            lemma_dec_str(t, seq![')'] + rest);
            lemma_dec_lit_concat(seq![')'], rest);
        },
        DetailsModel::Adventure(t) => {
            let s = enc_details(d) + rest;
            assert(s[0] == 'A');
            lemma_dec_lit_mismatch(s, lit_level_open());
            assert(s =~= lit_adventure_open() + (esc_str(t) + seq!['"'] + (seq![')'] + rest)));
            lemma_dec_lit_concat(lit_adventure_open(), esc_str(t) + seq!['"'] + (seq![')'] + rest));
            lemma_dec_str(t, seq![')'] + rest);
            lemma_dec_lit_concat(seq![')'], rest);
        },
    }
}

proof fn lemma_dec_elem(e: ElemModel, rest: Seq<char>)
    ensures
        dec_elem(enc_elem(e) + rest) == Some((e, rest)),
{
    match e {
        ElemModel::Road => {
            lemma_dec_lit_concat(lit_road(), rest);
        },
        ElemModel::Node { name, details } => {
            let s = enc_elem(e) + rest;
            assert(s[0] == 'N');
            lemma_dec_lit_mismatch(s, lit_road());
            let after_name = lit_details() + (enc_details(details) + (seq![')'] + rest));
            assert(s =~= lit_node_open() + (esc_str(name) + seq!['"'] + after_name));
            lemma_dec_lit_concat(lit_node_open(), esc_str(name) + seq!['"'] + after_name);
            lemma_dec_str(name, after_name);
            lemma_dec_lit_concat(lit_details(), enc_details(details) + (seq![')'] + rest));
            lemma_dec_details(details, seq![')'] + rest);
            lemma_dec_lit_concat(seq![')'], rest);
        },
    }
}

proof fn lemma_dec_entry(p: Pos, e: ElemModel, rest: Seq<char>)
    ensures
        dec_entry(enc_entry(p, e) + rest) == Some(((p, e), rest)),
{
    let s = enc_entry(p, e) + rest;
    let after_x = seq![','] + (enc_int(p.y as int) + (seq![')', '='] + (enc_elem(e) + (seq!['\n']
        + rest))));
    let after_y = seq![')', '='] + (enc_elem(e) + (seq!['\n'] + rest));
    assert(s =~= seq!['('] + (enc_int(p.x as int) + after_x));
    lemma_dec_lit_concat(seq!['('], enc_int(p.x as int) + after_x);
    assert(after_x[0] == ',');
    lemma_dec_int(p.x as int, after_x);
    lemma_dec_lit_concat(seq![','], enc_int(p.y as int) + after_y);
    assert(after_x =~= seq![','] + (enc_int(p.y as int) + after_y));
    assert(after_y[0] == ')');
    lemma_dec_int(p.y as int, after_y);
    lemma_dec_lit_concat(seq![')', '='], enc_elem(e) + (seq!['\n'] + rest));
    lemma_dec_elem(e, seq!['\n'] + rest);
    lemma_dec_lit_concat(seq!['\n'], rest);
    assert((p.x as int) as i32 == p.x);
    assert((p.y as int) as i32 == p.y);
}

/// Round trip: decoding an encoded entry sequence gives it back exactly.
pub proof fn lemma_dec_enc_entries(es: Seq<(Pos, ElemModel)>)
    ensures
        dec_entries(enc_entries(es)) == Some(es),
    decreases es.len(),
{
    if es.len() == 0 {
        assert(Seq::<(Pos, ElemModel)>::empty() =~= es);
    } else {
        let head = es[0];
        let tail = es.skip(1);
        let s = enc_entries(es);
        assert(s == enc_entry(head.0, head.1) + enc_entries(tail));
        lemma_dec_entry(head.0, head.1, enc_entries(tail));
        assert(s.len() >= 1) by {
            assert(enc_entry(head.0, head.1).len() >= 1);
        }
        lemma_dec_enc_entries(tail);
        assert(enc_entries(tail).len() < s.len()) by {
            assert(enc_entry(head.0, head.1).len() >= 1);
        }
        assert(seq![head] + tail =~= es);
    }
}

/// Encoding a concatenation is the concatenation of the encodings.
pub proof fn lemma_enc_entries_concat(a: Seq<(Pos, ElemModel)>, b: Seq<(Pos, ElemModel)>)
    ensures
        enc_entries(a + b) == enc_entries(a) + enc_entries(b),
    decreases a.len(),
{
    if a.len() == 0 {
        assert(a + b =~= b);
        assert(enc_entries(a) + enc_entries(b) =~= enc_entries(b));
    } else {
        assert((a + b).skip(1) =~= a.skip(1) + b);
        lemma_enc_entries_concat(a.skip(1), b);
        assert((a + b)[0] == a[0]);
        assert(enc_entries(a + b) =~= enc_entries(a) + enc_entries(b));
    }
}

/// Escaping a concatenation is the concatenation of the escapes.
pub proof fn lemma_esc_str_concat(a: Seq<char>, b: Seq<char>)
    ensures
        esc_str(a + b) == esc_str(a) + esc_str(b),
    decreases a.len(),
{
    if a.len() == 0 {
        assert(a + b =~= b);
        assert(esc_str(a) + esc_str(b) =~= esc_str(b));
    } else {
        assert((a + b).skip(1) =~= a.skip(1) + b);
        lemma_esc_str_concat(a.skip(1), b);
        assert((a + b)[0] == a[0]);
        assert(esc_str(a + b) =~= esc_str(a) + esc_str(b));
    }
}

/// Round-trip law: decoding the encoding of a well-formed adventure yields
/// exactly its entries, and so an equal mapping, whatever finite set of roads
/// and nodes it holds and at whatever positions.
pub proof fn lemma_round_trip(a: Adventure)
    requires
        a.wf(),
    ensures
        dec_entries(enc_entries(a.entry_seq())) == Some(a.entry_seq()),
        match dec_entries(enc_entries(a.entry_seq())) {
            Some(es) => entries_map(es) == a@ && keys_distinct(es),
            None => false,
        },
{
    lemma_dec_enc_entries(a.entry_seq());
}

/// Writing then reading an empty graph yields an empty graph: the empty
/// entry sequence encodes to the empty text, which decodes to no entries.
pub proof fn lemma_empty_round_trip()
    ensures
        enc_entries(Seq::<(Pos, ElemModel)>::empty()) == Seq::<char>::empty(),
        dec_entries(Seq::<char>::empty()) == Some(Seq::<(Pos, ElemModel)>::empty()),
        entries_map(Seq::<(Pos, ElemModel)>::empty()) == Map::<Pos, ElemModel>::empty(),
{
    lemma_dec_enc_entries(Seq::<(Pos, ElemModel)>::empty());
}

// ---------------------------------------------------------------------------
// Executable encoding
// ---------------------------------------------------------------------------

/// Relies on `String: FromIterator<char>`: collecting characters yields the
/// string of exactly those characters, in order.
#[verifier::external_body]
fn chars_to_string(v: &Vec<char>) -> (s: String)
    ensures
        s@ == v@,
{
    v.iter().collect()
}

fn digit_char_exec(d: u64) -> (c: char)
    requires
        d < 10,
    ensures
        c == digit_char(d as nat),
{
    if d == 0 {
        '0'
    } else if d == 1 {
        '1'
    } else if d == 2 {
        '2'
    } else if d == 3 {
        '3'
    } else if d == 4 {
        '4'
    } else if d == 5 {
        '5'
    } else if d == 6 {
        '6'
    } else if d == 7 {
        '7'
    } else if d == 8 {
        '8'
    } else {
        '9'
    }
}

fn char_digit(c: char) -> (r: Option<u64>)
    ensures
        r is Some <==> is_digit(c),
        r is Some ==> r->Some_0 as nat == digit_val(c) && r->Some_0 < 10,
{
    if c == '0' {
        Some(0)
    } else if c == '1' {
        Some(1)
    } else if c == '2' {
        Some(2)
    } else if c == '3' {
        Some(3)
    } else if c == '4' {
        Some(4)
    } else if c == '5' {
        Some(5)
    } else if c == '6' {
        Some(6)
    } else if c == '7' {
        Some(7)
    } else if c == '8' {
        Some(8)
    } else if c == '9' {
        Some(9)
    } else {
        None
    }
}

fn enc_nat_exec(n: u64, out: &mut Vec<char>)
    ensures
        final(out)@ == old(out)@ + enc_nat(n as nat),
    decreases n,
{
    if n < 10 {
        out.push(digit_char_exec(n));
        proof {
            assert(final(out)@ =~= old(out)@ + enc_nat(n as nat));
        }
    } else {
        enc_nat_exec(n / 10, out);
        out.push(digit_char_exec(n % 10));
        proof {
            assert(final(out)@ =~= old(out)@ + enc_nat(n as nat));
        }
    }
}

fn enc_int_exec(x: i32, out: &mut Vec<char>)
    ensures
        final(out)@ == old(out)@ + enc_int(x as int),
{
    if x < 0 {
        out.push('-');
        let m = (-(x as i64)) as u64;
        enc_nat_exec(m, out);
        proof {
            assert(final(out)@ =~= old(out)@ + enc_int(x as int));
        }
    } else {
        enc_nat_exec(x as u64, out);
    }
}

#[verifier::loop_isolation(false)]
fn esc_push(t: &str, out: &mut Vec<char>)
    ensures
        final(out)@ == old(out)@ + esc_str(t@),
{
    let n = t.unicode_len();
    let mut i: usize = 0;
    while i < n
        invariant
            n == t@.len(),
            i <= n,
            out@ == old(out)@ + esc_str(t@.take(i as int)),
        decreases n - i,
    {
        let c = t.get_char(i);
        if c == '"' || c == '\\' {
            out.push('\\');
            out.push(c);
        } else {
            out.push(c);
        }
        proof {
            assert(t@.take(i + 1) =~= t@.take(i as int) + seq![t@[i as int]]);
            lemma_esc_str_concat(t@.take(i as int), seq![t@[i as int]]);
            assert(esc_str(seq![t@[i as int]]) =~= esc_char(t@[i as int])) by {
                assert(seq![t@[i as int]].skip(1) =~= Seq::<char>::empty());
                assert(esc_str(Seq::<char>::empty()) =~= Seq::<char>::empty());
                assert(seq![t@[i as int]][0] == t@[i as int]);
                assert(esc_str(seq![t@[i as int]]) == esc_char(t@[i as int]) + esc_str(
                    Seq::<char>::empty(),
                ));
                assert(esc_char(t@[i as int]) + Seq::<char>::empty() =~= esc_char(t@[i as int]));
            }
            assert(out@ =~= old(out)@ + esc_str(t@.take(i + 1)));
        }
        i += 1;
    }
    proof {
        assert(t@.take(n as int) =~= t@);
    }
}

fn enc_details_exec(d: &NodeDetails, out: &mut Vec<char>)
    ensures
        final(out)@ == old(out)@ + enc_details(d@),
{
    match d {
        NodeDetails::Level(t) => {
            out.push('L');
            out.push('e');
            out.push('v');
            out.push('e');
            out.push('l');
            out.push('(');
            out.push('"');
            esc_push(t.as_str(), out);
            out.push('"');
            out.push(')');
            proof {
                assert(final(out)@ =~= old(out)@ + enc_details(d@));
            }
        },
        NodeDetails::Adventure(t) => {
            out.push('A');
            out.push('d');
            out.push('v');
            out.push('e');
            out.push('n');
            out.push('t');
            out.push('u');
            out.push('r');
            out.push('e');
            out.push('(');
            out.push('"');
            esc_push(t.as_str(), out);
            out.push('"');
            out.push(')');
            proof {
                assert(final(out)@ =~= old(out)@ + enc_details(d@));
            }
        },
    }
}

fn enc_elem_exec(e: &MapElement, out: &mut Vec<char>)
    ensures
        final(out)@ == old(out)@ + enc_elem(e@),
{
    match e {
        MapElement::Road => {
            out.push('R');
            out.push('o');
            out.push('a');
            out.push('d');
            proof {
                assert(final(out)@ =~= old(out)@ + enc_elem(e@));
            }
        },
        MapElement::Node(node) => {
            out.push('N');
            out.push('o');
            out.push('d');
            out.push('e');
            out.push('(');
            out.push('n');
            out.push('a');
            out.push('m');
            out.push('e');
            out.push(':');
            out.push('"');
            esc_push(node.name.as_str(), out);
            out.push('"');
            out.push(',');
            out.push('d');
            out.push('e');
            out.push('t');
            out.push('a');
            out.push('i');
            out.push('l');
            out.push('s');
            out.push(':');
            enc_details_exec(&node.details, out);
            out.push(')');
            proof {
                assert(final(out)@ =~= old(out)@ + enc_elem(e@));
            }
        },
    }
}

fn enc_entry_exec(p: Pos, e: &MapElement, out: &mut Vec<char>)
    ensures
        final(out)@ == old(out)@ + enc_entry(p, e@),
{
    out.push('(');
    enc_int_exec(p.x, out);
    out.push(',');
    enc_int_exec(p.y, out);
    out.push(')');
    out.push('=');
    enc_elem_exec(e, out);
    out.push('\n');
    proof {
        assert(final(out)@ =~= old(out)@ + enc_entry(p, e@));
    }
}

/// Serialize a graph to its text form. The result is exactly the encoding of
/// the graph's entries.
#[verifier::loop_isolation(false)]
pub fn to_text(a: &Adventure) -> (out: Vec<char>)
    ensures
        out@ == enc_entries(a.entry_seq()),
{
    let es = a.entries();
    let n = es.len();
    let mut out: Vec<char> = Vec::new();
    let mut i: usize = 0;
    while i < n
        invariant
            n == es.len(),
            i <= n,
            out@ == enc_entries(a.entry_seq().take(i as int)),
        decreases n - i,
    {
        let p = es[i].0;
        proof {
            assert(a.entry_seq()[i as int] == (es@[i as int].0, es@[i as int].1@));
        }
        enc_entry_exec(p, &es[i].1, &mut out);
        proof {
            assert(a.entry_seq().take(i + 1) =~= a.entry_seq().take(i as int) + seq![
                a.entry_seq()[i as int],
            ]);
            lemma_enc_entries_concat(a.entry_seq().take(i as int), seq![a.entry_seq()[i as int]]);
            assert(enc_entries(seq![a.entry_seq()[i as int]]) =~= enc_entry(
                a.entry_seq()[i as int].0,
                a.entry_seq()[i as int].1,
            )) by {
                let one = seq![a.entry_seq()[i as int]];
                assert(one.skip(1) =~= Seq::<(Pos, ElemModel)>::empty());
                assert(enc_entries(Seq::<(Pos, ElemModel)>::empty()) =~= Seq::<char>::empty());
                assert(one[0] == a.entry_seq()[i as int]);
                assert(enc_entries(one) == enc_entry(one[0].0, one[0].1) + enc_entries(
                    Seq::<(Pos, ElemModel)>::empty(),
                ));
                assert(enc_entry(one[0].0, one[0].1) + Seq::<char>::empty() =~= enc_entry(
                    one[0].0,
                    one[0].1,
                ));
            }
            assert(out@ =~= enc_entries(a.entry_seq().take(i + 1)));
        }
        i += 1;
    }
    proof {
        assert(a.entry_seq().take(n as int) =~= a.entry_seq());
    }
    out
}

// ---------------------------------------------------------------------------
// Executable decoding
// ---------------------------------------------------------------------------

/// Match an expected literal at `i`, returning the index after it.
#[verifier::loop_isolation(false)]
fn expect_lit(s: &Vec<char>, i: usize, l: &Vec<char>) -> (r: Option<usize>)
    requires
        i <= s.len(),
    ensures
        match (r, dec_lit(s@.skip(i as int), l@)) {
            (Some(j), Some(sp)) => i <= j <= s.len() && j == i + l@.len() && s@.skip(j as int)
                == sp,
            (None, None) => true,
            _ => false,
        },
{
    if s.len() - i < l.len() {
        return None;
    }
    let mut k: usize = 0;
    while k < l.len()
        invariant
            i <= s.len(),
            l.len() <= s.len() - i,
            k <= l.len(),
            forall|m: int| 0 <= m < k ==> s@.skip(i as int)[m] == l@[m],
        decreases l.len() - k,
    {
        if s[i + k] != l[k] {
            proof {
                if starts_with(s@.skip(i as int), l@) {
                    assert(s@.skip(i as int).take(l@.len() as int)[k as int] == l@[k as int]);
                    assert(s@.skip(i as int)[k as int] == s@[i + k]);
                }
            }
            return None;
        }
        k += 1;
    }
    proof {
        assert(s@.skip(i as int).take(l@.len() as int) =~= l@);
        assert(s@.skip(i as int).skip(l@.len() as int) =~= s@.skip(i + l@.len()));
    }
    Some(i + l.len())
}

/// Match one expected character at `i`.
fn expect1(s: &Vec<char>, i: usize, c: char) -> (r: Option<usize>)
    requires
        i <= s.len(),
    ensures
        match (r, dec_lit(s@.skip(i as int), seq![c])) {
            (Some(j), Some(sp)) => i < j <= s.len() && s@.skip(j as int) == sp,
            (None, None) => true,
            _ => false,
        },
{
    if i < s.len() {
        let c0 = s[i];
        if c0 == c {
            proof {
                assert(s@.skip(i as int).take(1) =~= seq![c]);
                assert(s@.skip(i as int).skip(1) =~= s@.skip(i as int + 1));
            }
            Some(i + 1)
        } else {
            proof {
                if starts_with(s@.skip(i as int), seq![c]) {
                    assert(s@.skip(i as int).take(1)[0] == c);
                    assert(s@.skip(i as int)[0] == s@[i as int]);
                }
            }
            None
        }
    } else {
        None
    }
}

/// Consume digits into a bounded accumulator, mirroring `dec_nat_loop`.
fn dnat_loop(s: &Vec<char>, i: usize, acc: u64) -> (r: Option<(u64, usize)>)
    requires
        i <= s.len(),
        acc <= 2147483648,
    ensures
        match (r, dec_nat_loop(s@.skip(i as int), acc as nat)) {
            (Some((n, j)), Some(sp)) => n as nat == sp.0 && i <= j <= s.len() && s@.skip(j as int)
                == sp.1 && n <= 2147483648,
            (None, None) => true,
            _ => false,
        },
    decreases s.len() - i,
{
    if i == s.len() {
        proof {
            assert(s@.skip(i as int) =~= Seq::<char>::empty());
        }
        return Some((acc, i));
    }
    let c = s[i];
    proof {
        assert(s@.skip(i as int)[0] == s@[i as int]);
    }
    match char_digit(c) {
        None => Some((acc, i)),
        Some(d) => {
            let v = acc * 10 + d;
            if v > 2147483648 {
                None
            } else {
                proof {
                    assert(s@.skip(i as int).skip(1) =~= s@.skip(i as int + 1));
                }
                dnat_loop(s, i + 1, v)
            }
        },
    }
}

/// Consume an unsigned number, mirroring `dec_nat`.
fn dnat(s: &Vec<char>, i: usize) -> (r: Option<(u64, usize)>)
    requires
        i <= s.len(),
    ensures
        match (r, dec_nat(s@.skip(i as int))) {
            (Some((n, j)), Some(sp)) => n as nat == sp.0 && i <= j <= s.len() && s@.skip(j as int)
                == sp.1 && n <= 2147483648,
            (None, None) => true,
            _ => false,
        },
{
    if i == s.len() {
        return None;
    }
    let c = s[i];
    proof {
        assert(s@.skip(i as int)[0] == s@[i as int]);
    }
    match char_digit(c) {
        None => None,
        Some(_) => dnat_loop(s, i, 0),
    }
}

/// Consume a signed 32-bit number, mirroring `dec_int`.
fn dint(s: &Vec<char>, i: usize) -> (r: Option<(i32, usize)>)
    requires
        i <= s.len(),
    ensures
        match (r, dec_int(s@.skip(i as int))) {
            (Some((x, j)), Some(sp)) => x as int == sp.0 && i <= j <= s.len() && s@.skip(j as int)
                == sp.1,
            (None, None) => true,
            _ => false,
        },
{
    if i < s.len() {
        let c = s[i];
        proof {
            assert(s@.skip(i as int)[0] == s@[i as int]);
        }
        if c == '-' {
            proof {
                assert(s@.skip(i as int).skip(1) =~= s@.skip(i as int + 1));
            }
            match dnat(s, i + 1) {
                Some((n, j)) => {
                    let x = (-(n as i64)) as i32;
                    Some((x, j))
                },
                None => None,
            }
        } else {
            match dnat(s, i) {
                Some((n, j)) => if n < 2147483648 {
                    Some((n as i32, j))
                } else {
                    None
                },
                None => None,
            }
        }
    } else {
        None
    }
}

/// Consume a quoted string body up to its closing quote, mirroring `dec_str`.
fn dstr(s: &Vec<char>, i: usize) -> (r: Option<(Vec<char>, usize)>)
    requires
        i <= s.len(),
    ensures
        match (r, dec_str(s@.skip(i as int))) {
            (Some((t, j)), Some(sp)) => t@ == sp.0 && i <= j <= s.len() && s@.skip(j as int)
                == sp.1,
            (None, None) => true,
            _ => false,
        },
    decreases s.len() - i,
{
    if i == s.len() {
        return None;
    }
    let c = s[i];
    proof {
        assert(s@.skip(i as int)[0] == s@[i as int]);
    }
    if c == '"' {
        proof {
            assert(s@.skip(i as int).skip(1) =~= s@.skip(i as int + 1));
        }
        Some((Vec::new(), i + 1))
    } else if c == '\\' {
        if i + 1 < s.len() {
            let c2 = s[i + 1];
            proof {
                assert(s@.skip(i as int)[1] == s@[i as int + 1]);
            }
            if c2 == '"' || c2 == '\\' {
                proof {
                    assert(s@.skip(i as int).skip(2) =~= s@.skip(i as int + 2));
                }
                match dstr(s, i + 2) {
                    Some((mut t, j)) => {
                        let ghost t0 = t@;
                        t.insert(0, c2);
                        proof {
                            assert(t@ =~= seq![c2] + t0);
                        }
                        Some((t, j))
                    },
                    None => None,
                }
            } else {
                None
            }
        } else {
            None
        }
    } else {
        proof {
            assert(s@.skip(i as int).skip(1) =~= s@.skip(i as int + 1));
        }
        match dstr(s, i + 1) {
            Some((mut t, j)) => {
                let ghost t0 = t@;
                t.insert(0, c);
                proof {
                    assert(t@ =~= seq![c] + t0);
                }
                Some((t, j))
            },
            None => None,
        }
    }
}

fn level_open_vec() -> (v: Vec<char>)
    ensures
        v@ == lit_level_open(),
{
    let mut v: Vec<char> = Vec::new();
    v.push('L');
    v.push('e');
    v.push('v');
    v.push('e');
    v.push('l');
    v.push('(');
    v.push('"');
    proof {
        assert(v@ =~= lit_level_open());
    }
    v
}

fn adventure_open_vec() -> (v: Vec<char>)
    ensures
        v@ == lit_adventure_open(),
{
    let mut v: Vec<char> = Vec::new();
    v.push('A');
    v.push('d');
    v.push('v');
    v.push('e');
    v.push('n');
    v.push('t');
    v.push('u');
    v.push('r');
    v.push('e');
    v.push('(');
    v.push('"');
    proof {
        assert(v@ =~= lit_adventure_open());
    }
    v
}

fn road_vec() -> (v: Vec<char>)
    ensures
        v@ == lit_road(),
{
    let mut v: Vec<char> = Vec::new();
    v.push('R');
    v.push('o');
    v.push('a');
    v.push('d');
    proof {
        assert(v@ =~= lit_road());
    }
    v
}

fn node_open_vec() -> (v: Vec<char>)
    ensures
        v@ == lit_node_open(),
{
    let mut v: Vec<char> = Vec::new();
    v.push('N');
    v.push('o');
    v.push('d');
    v.push('e');
    v.push('(');
    v.push('n');
    v.push('a');
    v.push('m');
    v.push('e');
    v.push(':');
    v.push('"');
    proof {
        assert(v@ =~= lit_node_open());
    }
    v
}

fn details_sep_vec() -> (v: Vec<char>)
    ensures
        v@ == lit_details(),
{
    let mut v: Vec<char> = Vec::new();
    v.push(',');
    v.push('d');
    v.push('e');
    v.push('t');
    v.push('a');
    v.push('i');
    v.push('l');
    v.push('s');
    v.push(':');
    proof {
        assert(v@ =~= lit_details());
    }
    v
}

/// Consume a details value, mirroring `dec_details`.
fn ddetails(s: &Vec<char>, i: usize) -> (r: Option<(NodeDetails, usize)>)
    requires
        i <= s.len(),
    ensures
        match (r, dec_details(s@.skip(i as int))) {
            (Some((d, j)), Some(sp)) => d@ == sp.0 && i <= j <= s.len() && s@.skip(j as int)
                == sp.1,
            (None, None) => true,
            _ => false,
        },
{
    let lev = level_open_vec();
    match expect_lit(s, i, &lev) {
        Some(j1) => match dstr(s, j1) {
            Some((t, j2)) => match expect1(s, j2, ')') {
                Some(j3) => Some((NodeDetails::Level(chars_to_string(&t)), j3)),
                None => None,
            },
            None => None,
        },
        None => {
            let adv = adventure_open_vec();
            match expect_lit(s, i, &adv) {
                Some(j1) => match dstr(s, j1) {
                    Some((t, j2)) => match expect1(s, j2, ')') {
                        Some(j3) => Some((NodeDetails::Adventure(chars_to_string(&t)), j3)),
                        None => None,
                    },
                    None => None,
                },
                None => None,
            }
        },
    }
}

/// Consume a map element, mirroring `dec_elem`.
fn delem(s: &Vec<char>, i: usize) -> (r: Option<(MapElement, usize)>)
    requires
        i <= s.len(),
    ensures
        match (r, dec_elem(s@.skip(i as int))) {
            (Some((e, j)), Some(sp)) => e@ == sp.0 && i <= j <= s.len() && s@.skip(j as int)
                == sp.1,
            (None, None) => true,
            _ => false,
        },
{
    let road = road_vec();
    match expect_lit(s, i, &road) {
        Some(j) => Some((MapElement::Road, j)),
        None => {
            let node = node_open_vec();
            match expect_lit(s, i, &node) {
                Some(j1) => match dstr(s, j1) {
                    Some((name, j2)) => {
                        let sep = details_sep_vec();
                        match expect_lit(s, j2, &sep) {
                            Some(j3) => match ddetails(s, j3) {
                                Some((d, j4)) => match expect1(s, j4, ')') {
                                    Some(j5) => Some(
                                        (
                                            MapElement::Node(
                                                AdventureNode {
                                                    name: chars_to_string(&name),
                                                    details: d,
                                                },
                                            ),
                                            j5,
                                        ),
                                    ),
                                    None => None,
                                },
                                None => None,
                            },
                            None => None,
                        }
                    },
                    None => None,
                },
                None => None,
            }
        },
    }
}

/// Consume one entry line, mirroring `dec_entry`.
fn dentry(s: &Vec<char>, i: usize) -> (r: Option<((Pos, MapElement), usize)>)
    requires
        i <= s.len(),
    ensures
        match (r, dec_entry(s@.skip(i as int))) {
            (Some(((p, e), j)), Some(sp)) => p == sp.0.0 && e@ == sp.0.1 && i < j <= s.len()
                && s@.skip(j as int) == sp.1,
            (None, None) => true,
            _ => false,
        },
{
    match expect1(s, i, '(') {
        Some(j1) => match dint(s, j1) {
            Some((x, j2)) => match expect1(s, j2, ',') {
                Some(j3) => match dint(s, j3) {
                    Some((y, j4)) => {
                        proof {
                            lemma_two_char_lit(s@.skip(j4 as int), ')', '=');
                        }
                        match expect1(s, j4, ')') {
                            Some(j5) => match expect1(s, j5, '=') {
                                Some(j6) => match delem(s, j6) {
                                    Some((e, j7)) => match expect1(s, j7, '\n') {
                                        Some(j8) => Some(((Pos { x, y }, e), j8)),
                                        None => None,
                                    },
                                    None => None,
                                },
                                None => None,
                            },
                            None => None,
                        }
                    },
                    None => None,
                },
                None => None,
            },
            None => None,
        },
        None => None,
    }
}

/// Parse a graph from its text form. Exactly the encodings of entry
/// sequences are accepted; any other content — an unrecognized variant tag, a
/// missing field, a malformed number — is a format error, never a silent
/// default. Later entries overwrite earlier ones at the same position; when
/// the positions are distinct (as in every encoder output), the decoded graph
/// holds exactly the decoded entries, in order.
#[verifier::loop_isolation(false)]
pub fn from_text(s: &Vec<char>) -> (r: Result<Adventure, CodecError>)
    ensures
        match (r, dec_entries(s@)) {
            (Ok(a), Some(es)) => a.wf() && a@ == entries_map(es) && (keys_distinct(es)
                ==> a.entry_seq() == es),
            (Err(e), None) => e == CodecError::Format,
            _ => false,
        },
{
    let mut a = Adventure::new();
    let mut idx: usize = 0;
    let ghost mut done: Seq<(Pos, ElemModel)> = Seq::empty();
    proof {
        assert(s@.skip(0) =~= s@);
        if dec_entries(s@) is Some {
            assert(done + dec_entries(s@)->Some_0 =~= dec_entries(s@)->Some_0);
        }
    }
    while idx < s.len()
        invariant
            idx <= s.len(),
            a.wf(),
            a@ == entries_map(done),
            dec_entries(s@) == (match dec_entries(s@.skip(idx as int)) {
                Some(t) => Some(done + t),
                None => None::<Seq<(Pos, ElemModel)>>,
            }),
            (match dec_entries(s@) {
                Some(es) => keys_distinct(es) ==> a.entry_seq() == done,
                None => true,
            }),
        decreases s.len() - idx,
    {
        match dentry(s, idx) {
            None => {
                proof {
                    assert(s@.skip(idx as int).len() > 0);
                }
                return Err(CodecError::Format);
            },
            Some(((p, e), j)) => {
                let ghost pe = (p, e@);
                let ghost done0 = done;
                proof {
                    assert(s@.skip(idx as int).len() == s@.len() - idx);
                    assert(s@.skip(j as int).len() == s@.len() - j);
                    assert(dec_entry(s@.skip(idx as int)) == Some((pe, s@.skip(j as int))));
                    if dec_entries(s@.skip(j as int)) is Some {
                        let t = dec_entries(s@.skip(j as int))->Some_0;
                        assert(dec_entries(s@.skip(idx as int)) == Some(seq![pe] + t));
                        assert(done0 + (seq![pe] + t) =~= done0.push(pe) + t);
                    }
                    if dec_entries(s@) is Some {
                        let es = dec_entries(s@)->Some_0;
                        if keys_distinct(es) {
                            lemma_entries_map_dom(done0);
                            let t = dec_entries(s@.skip(j as int))->Some_0;
                            assert(es == done0 + (seq![pe] + t));
                            assert(es[done0.len() as int] == pe);
                            if entries_map(done0).dom().contains(p) {
                                let k = choose|k: int|
                                    0 <= k < done0.len() && (#[trigger] done0[k]).0 == p;
                                assert(es[k] == done0[k]);
                                assert(es[k].0 == es[done0.len() as int].0);
                            }
                            assert(!a@.dom().contains(p));
                        }
                    }
                }
                a.insert(p, e);
                proof {
                    done = done0.push(pe);
                    assert(done.drop_last() =~= done0);
                    assert(a@ == entries_map(done));
                }
                idx = j;
            },
        }
    }
    proof {
        assert(s@.skip(idx as int) =~= Seq::<char>::empty());
        assert(done + Seq::<(Pos, ElemModel)>::empty() =~= done);
    }
    Ok(a)
}

/// Consuming a two-character literal is consuming its characters in turn.
proof fn lemma_two_char_lit(s: Seq<char>, c1: char, c2: char)
    ensures
        dec_lit(s, seq![c1, c2]) == (match dec_lit(s, seq![c1]) {
            Some(r) => dec_lit(r, seq![c2]),
            None => None,
        }),
{
    if starts_with(s, seq![c1, c2]) {
        assert(s.take(2)[0] == s[0]);
        assert(s.take(2)[1] == s[1]);
        assert(s.take(1) =~= seq![c1]);
        assert(s.skip(1).take(1) =~= seq![c2]);
        assert(s.skip(1).skip(1) =~= s.skip(2));
    } else {
        if starts_with(s, seq![c1]) {
            assert(s.take(1)[0] == s[0]);
            if starts_with(s.skip(1), seq![c2]) {
                assert(s.skip(1).take(1)[0] == s[1]);
                assert(s.take(2) =~= seq![c1, c2]);
            }
        }
    }
}

} // verus!
