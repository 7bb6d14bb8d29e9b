//! A plain-text codec for records and pending events.
//!
//! A document is a sequence of lines, a line a sequence of fields followed
//! by `'\n'`. A number field is written as its decimal digits followed by
//! `','`; a text field as the decimal count of its characters, `':'`, and
//! the characters themselves, so text needs no escaping.
use vstd::prelude::*;

verus! {

pub open spec fn digit_char(d: nat) -> char {
    if d == 0 {
        '0'
    } else if d == 1 {
        '1'
    } else if d == 2 {
        '2'
    } else if d == 3 {
        '3'
    } else if d == 4 {
        '4'
    } else if d == 5 {
        '5'
    } else if d == 6 {
        '6'
    } else if d == 7 {
        '7'
    } else if d == 8 {
        '8'
    } else {
        '9'
    }
}

pub open spec fn digit_of(c: char) -> Option<nat> {
    if c == '0' {
        Some(0)
    } else if c == '1' {
        Some(1)
    } else if c == '2' {
        Some(2)
    } else if c == '3' {
        Some(3)
    } else if c == '4' {
        Some(4)
    } else if c == '5' {
        Some(5)
    } else if c == '6' {
        Some(6)
    } else if c == '7' {
        Some(7)
    } else if c == '8' {
        Some(8)
    } else if c == '9' {
        Some(9)
    } else {
        None
    }
}

/// Decimal digits of `n`, without leading zeros.
pub open spec fn digits(n: nat) -> Seq<char>
    decreases n,
{
    if n < 10 {
        seq![digit_char(n)]
    } else {
        digits(n / 10).push(digit_char(n % 10))
    }
}

/// The number that a sequence of decimal digits denotes.
pub open spec fn value(ds: Seq<char>) -> nat
    decreases ds.len(),
{
    if ds.len() == 0 {
        0
    } else {
        value(ds.drop_last()) * 10 + match digit_of(ds.last()) {
            Some(d) => d,
            None => 0,
        }
    }
}

pub open spec fn all_digits(ds: Seq<char>) -> bool {
    forall|i: int| 0 <= i < ds.len() ==> #[trigger] digit_of(ds[i]) is Some
}

/// Written without a superfluous leading zero.
pub open spec fn canonical(ds: Seq<char>) -> bool {
    ds.len() >= 1 && all_digits(ds) && (ds.len() == 1 || ds[0] != '0')
}

proof fn lemma_digits(n: nat)
    ensures
        canonical(digits(n)),
        value(digits(n)) == n,
        n >= 1 ==> digits(n)[0] != '0',
    decreases n,
{
    if n >= 10 {
        lemma_digits(n / 10);
        let s = digits(n);
        assert(s.drop_last() == digits(n / 10));
        assert(s[0] == digits(n / 10)[0]);
        assert forall|i: int| 0 <= i < s.len() implies #[trigger] digit_of(s[i]) is Some by {
            if i < s.len() - 1 {
                assert(s[i] == digits(n / 10)[i]);
            }
        }
        assert(n == (n / 10) * 10 + n % 10) by (nonlinear_arith);
        assert(s.last() == digit_char(n % 10));
        assert(digit_of(digit_char(n % 10)) == Some(n % 10));
        assert(value(s) == value(digits(n / 10)) * 10 + n % 10);
    } else {
        assert(digits(n).drop_last() =~= Seq::<char>::empty());
        assert(digit_of(digit_char(n)) == Some(n));
        assert(value(digits(n)) == value(digits(n).drop_last()) * 10 + n);
    }
}

proof fn lemma_value_prefix(s: Seq<char>, i: int)
    requires
        0 <= i <= s.len(),
    ensures
        value(s.subrange(0, i)) <= value(s),
    decreases s.len(),
{
    if i < s.len() {
        assert(s.drop_last().subrange(0, i) =~= s.subrange(0, i));
        lemma_value_prefix(s.drop_last(), i);
    } else {
        assert(s.subrange(0, i) =~= s);
    }
}

proof fn lemma_canonical(ds: Seq<char>)
    requires
        canonical(ds),
    ensures
        digits(value(ds)) == ds,
    decreases ds.len(),
{
    let d = digit_of(ds.last())->0;
    if ds.len() == 1 {
        assert(ds.drop_last() =~= Seq::<char>::empty());
        assert(digit_of(ds[0]) is Some);
        assert(digit_char(d) == ds[0]);
        assert(value(ds.drop_last()) == 0);
        assert(ds.last() == ds[0]);
        assert(value(ds) == d);
        assert(digits(value(ds)) =~= ds);
    } else {
        let p = ds.drop_last();
        assert(p[0] == ds[0]);
        assert forall|i: int| 0 <= i < p.len() implies #[trigger] digit_of(p[i]) is Some by {
            assert(p[i] == ds[i]);
        }
        lemma_canonical(p);
        lemma_value_prefix(p, 1);
        assert(p.subrange(0, 1).drop_last() =~= Seq::<char>::empty());
        assert(value(p.subrange(0, 1)) >= 1);
        let v = value(p);
        assert(value(ds) == v * 10 + d);
        assert((v * 10 + d) / 10 == v && (v * 10 + d) % 10 == d) by (nonlinear_arith)
            requires
                d < 10,
        ;
        assert(digit_of(ds.last()) is Some);
        assert(digit_char(d) == ds.last());
        assert(digits(value(ds)) =~= ds);
    }
}

fn digit_value(c: char) -> (r: Option<u64>)
    ensures
        r is Some == digit_of(c) is Some,
        r is Some ==> r->0 == digit_of(c)->0,
{
    if c == '0' {
        Some(0)
    } else if c == '1' {
        Some(1)
    } else if c == '2' {
        Some(2)
    } else if c == '3' {
        Some(3)
    } else if c == '4' {
        Some(4)
    } else if c == '5' {
        Some(5)
    } else if c == '6' {
        Some(6)
    } else if c == '7' {
        Some(7)
    } else if c == '8' {
        Some(8)
    } else if c == '9' {
        Some(9)
    } else {
        None
    }
}

fn digit_to_char(d: u64) -> (c: char)
    requires
        d < 10,
    ensures
        c == digit_char(d as nat),
{
    if d == 0 {
        '0'
    } else if d == 1 {
        '1'
    } else if d == 2 {
        '2'
    } else if d == 3 {
        '3'
    } else if d == 4 {
        '4'
    } else if d == 5 {
        '5'
    } else if d == 6 {
        '6'
    } else if d == 7 {
        '7'
    } else if d == 8 {
        '8'
    } else {
        '9'
    }
}

fn push_digits(n: u64, out: &mut Vec<char>)
    ensures
        final(out)@ == old(out)@ + digits(n as nat),
    decreases n,
{
    if n >= 10 {
        push_digits(n / 10, out);
    }
    out.push(digit_to_char(n % 10));
    assert(final(out)@ =~= old(out)@ + digits(n as nat));
}

/// Reads a number at `pos` that ends with `term`: returns it and the
/// position after `term`. Succeeds exactly where the input holds the
/// canonical digits of a `u64` followed by `term`.
fn parse_number(input: &Vec<char>, pos: usize, term: char) -> (r: Option<(u64, usize)>)
    requires
        digit_of(term) is None,
        pos <= input@.len(),
    ensures
        r matches Some((v, next)) ==> pos < next <= input@.len() && input@.subrange(
            pos as int,
            next as int,
        ) == digits(v as nat).push(term),
        forall|n: nat|
            n <= u64::MAX && pos + digits(n).len() + 1 <= input@.len() && #[trigger] input@.subrange(
                pos as int,
                pos + digits(n).len() + 1,
            ) == digits(n).push(term) ==> r == Some::<(u64, usize)>(
                (n as u64, (pos + digits(n).len() + 1) as usize),
            ),
{
    let mut i: usize = pos;
    let mut acc: u64 = 0;
    let mut overflow = false;
    assert(input@.subrange(pos as int, pos as int) =~= Seq::<char>::empty());
    while i < input.len()
        invariant
            pos <= i <= input@.len(),
            !overflow ==> acc == value(input@.subrange(pos as int, i as int)),
            all_digits(input@.subrange(pos as int, i as int)),
            overflow ==> value(input@.subrange(pos as int, i as int)) > u64::MAX,
        ensures
            pos <= i <= input@.len(),
            !overflow ==> acc == value(input@.subrange(pos as int, i as int)),
            all_digits(input@.subrange(pos as int, i as int)),
            overflow ==> value(input@.subrange(pos as int, i as int)) > u64::MAX,
            i < input@.len() ==> digit_of(input@[i as int]) is None,
        decreases input@.len() - i,
    {
        match digit_value(input[i]) {
            None => break,
            Some(d) => {
                let ghost prev = input@.subrange(pos as int, i as int);
                let ghost next = input@.subrange(pos as int, i + 1);
                assert(next.drop_last() =~= prev);
                assert forall|k: int| 0 <= k < next.len() implies #[trigger] digit_of(next[k]) is Some by {
                    if k < prev.len() {
                        assert(next[k] == prev[k]);
                    }
                }
                if !overflow {
                    match acc.checked_mul(10) {
                        None => {
                            overflow = true;
                        },
                        Some(m) => match m.checked_add(d) {
                            None => {
                                overflow = true;
                            },
                            Some(s) => {
                                acc = s;
                            },
                        },
                    }
                } else {
                    assert(value(next) >= value(prev)) by (nonlinear_arith)
                        requires
                            value(next) == value(prev) * 10 + d,
                    ;
                }
                i = i + 1;
            },
        }
    }
    let ghost ds = input@.subrange(pos as int, i as int);
    let ok = !overflow && i > pos && i < input.len() && input[i] == term && (i == pos + 1
        || input[pos] != '0');
    proof {
        assert forall|n: nat|
            n <= u64::MAX && pos + digits(n).len() + 1 <= input@.len() && #[trigger] input@.subrange(
                pos as int,
                pos + digits(n).len() + 1,
            ) == digits(n).push(term) implies ok && acc == n && i == pos + digits(n).len() by {
            lemma_digits(n);
            let dn = digits(n);
            let m = pos + dn.len();
            assert forall|k: int| pos <= k < m implies digit_of(#[trigger] input@[k]) is Some by {
                assert(input@[k] == input@.subrange(pos as int, m + 1)[k - pos]);
                assert(input@[k] == dn[k - pos]);
            }
            assert(input@[m] == term) by {
                assert(input@[m] == input@.subrange(pos as int, m + 1)[m - pos]);
            }
            if i < m {
                assert(digit_of(input@[i as int]) is Some);
            }
            if i > m {
                assert(ds[m - pos] == input@[m]);
            }
            assert(i == m);
            assert(ds =~= dn);
            if overflow {
                assert(false);
            }
            assert(input@[pos as int] == ds[0]);
        }
        if ok {
            lemma_canonical(ds);
            assert(input@.subrange(pos as int, i + 1) =~= ds.push(term));
        }
    }
    if ok {
        Some((acc, i + 1))
    } else {
        None
    }
}

/// One field of a line.
#[derive(Debug)]
pub enum Field {
    Num(u64),
    Text(String),
}

/// The mathematical value of a field.
pub enum FieldView {
    Num(u64),
    Text(Seq<char>),
}

impl View for Field {
    type V = FieldView;

    open spec fn view(&self) -> FieldView {
        match self {
            Field::Num(n) => FieldView::Num(*n),
            Field::Text(t) => FieldView::Text(t@),
        }
    }
}

pub open spec fn enc_field(f: FieldView) -> Seq<char> {
    match f {
        FieldView::Num(n) => digits(n as nat).push(','),
        FieldView::Text(t) => digits(t.len()).push(':') + t,
    }
}

pub open spec fn enc_fields(fs: Seq<FieldView>) -> Seq<char>
    decreases fs.len(),
{
    if fs.len() == 0 {
        Seq::empty()
    } else {
        enc_fields(fs.drop_last()) + enc_field(fs.last())
    }
}

pub open spec fn enc_line(fs: Seq<FieldView>) -> Seq<char> {
    enc_fields(fs).push('\n')
}

pub open spec fn enc_doc(d: Seq<Seq<FieldView>>) -> Seq<char>
    decreases d.len(),
{
    if d.len() == 0 {
        Seq::empty()
    } else {
        enc_doc(d.drop_last()) + enc_line(d.last())
    }
}

pub open spec fn line_view(l: Vec<Field>) -> Seq<FieldView> {
    l@.map_values(|f: Field| f@)
}

pub open spec fn doc_view(d: Seq<Vec<Field>>) -> Seq<Seq<FieldView>> {
    d.map_values(|l: Vec<Field>| line_view(l))
}

/// `input` holds `s` from position `pos` on.
pub open spec fn holds_at(input: Seq<char>, pos: int, s: Seq<char>) -> bool {
    0 <= pos && pos + s.len() <= input.len() && input.subrange(pos, pos + s.len()) == s
}

proof fn lemma_holds_split(input: Seq<char>, pos: int, a: Seq<char>, b: Seq<char>)
    requires
        holds_at(input, pos, a + b),
    ensures
        holds_at(input, pos, a),
        holds_at(input, pos + a.len(), b),
{
    let big = input.subrange(pos, pos + a.len() + b.len());
    assert(big == a + b);
    assert(input.subrange(pos, pos + a.len()) =~= big.subrange(0, a.len() as int));
    assert(big.subrange(0, a.len() as int) =~= a);
    assert(input.subrange(pos + a.len(), pos + a.len() + b.len()) =~= big.subrange(
        a.len() as int,
        big.len() as int,
    ));
    assert(big.subrange(a.len() as int, big.len() as int) =~= b);
}

proof fn lemma_holds_join(input: Seq<char>, pos: int, a: Seq<char>, b: Seq<char>)
    requires
        holds_at(input, pos, a),
        holds_at(input, pos + a.len(), b),
    ensures
        holds_at(input, pos, a + b),
{
    assert(input.subrange(pos, pos + a.len() + b.len()) =~= a + b);
}

/// Relies on String::push: appends one character.
#[verifier::external_body]
fn push_char(s: &mut String, c: char)
    ensures
        final(s)@ == old(s)@.push(c),
{
    s.push(c);
}

proof fn lemma_field_starts_with_digit(f: FieldView)
    ensures
        enc_field(f).len() >= 2,
        digit_of(enc_field(f)[0]) is Some,
{
    match f {
        FieldView::Num(n) => {
            lemma_digits(n as nat);
            assert(enc_field(f)[0] == digits(n as nat)[0]);
        },
        FieldView::Text(t) => {
            lemma_digits(t.len());
            assert(enc_field(f)[0] == digits(t.len())[0]);
        },
    }
}

/// Two numbers with different terminators cannot both start at one place.
proof fn lemma_terminators_differ(input: Seq<char>, pos: int, m: nat, n: nat)
    ensures
        !(holds_at(input, pos, digits(m).push(',')) && holds_at(input, pos, digits(n).push(':'))),
{
    lemma_digits(m);
    lemma_digits(n);
    let a = digits(m);
    let b = digits(n);
    if !(holds_at(input, pos, digits(m).push(',')) && holds_at(input, pos, digits(n).push(':'))) {
    } else if a.len() <= b.len() {
        let k = pos + a.len();
        assert(input[k] == digits(m).push(',')[a.len() as int]);
        assert(input[k] == digits(n).push(':')[a.len() as int]);
        if a.len() < b.len() {
            assert(digit_of(b[a.len() as int]) is Some);
        }
    } else {
        let k = pos + b.len();
        assert(input[k] == digits(m).push(',')[b.len() as int]);
        assert(input[k] == digits(n).push(':')[b.len() as int]);
        assert(digit_of(a[b.len() as int]) is Some);
    }
}

/// Reads one field at `pos`; succeeds exactly where the input holds the
/// encoding of a field, and returns that field.
pub fn parse_field(input: &Vec<char>, pos: usize) -> (r: Option<(Field, usize)>)
    requires
        pos <= input@.len(),
    ensures
        r matches Some((f, next)) ==> next == pos + enc_field(f@).len() && holds_at(
            input@,
            pos as int,
            enc_field(f@),
        ),
        forall|g: FieldView| #[trigger]
            holds_at(input@, pos as int, enc_field(g)) ==> (r matches Some((f, next)) && f@ == g
                && next == pos + enc_field(g).len()),
{
    let total: usize = input.len();
    assert(total <= u64::MAX);
    match parse_number(input, pos, ',') {
        Some((n, next)) => {
            proof {
                assert forall|g: FieldView| #[trigger]
                    holds_at(input@, pos as int, enc_field(g)) implies g == FieldView::Num(n) by {
                    match g {
                        FieldView::Num(m) => {
                            assert(input@.subrange(pos as int, pos + digits(m as nat).len() + 1)
                                == digits(m as nat).push(','));
                        },
                        FieldView::Text(t) => {
                            lemma_holds_split(input@, pos as int, digits(t.len()).push(':'), t);
                            lemma_terminators_differ(input@, pos as int, n as nat, t.len());
                        },
                    }
                }
            }
            return Some((Field::Num(n), next));
        },
        None => {},
    }
    proof {
        assert forall|g: FieldView| #[trigger] holds_at(input@, pos as int, enc_field(g)) implies g is Text by {
            if let FieldView::Num(m) = g {
                assert(input@.subrange(pos as int, pos + digits(m as nat).len() + 1) == digits(
                    m as nat,
                ).push(','));
            }
        }
    }
    match parse_number(input, pos, ':') {
        None => {
            proof {
                assert forall|g: FieldView| #[trigger] holds_at(input@, pos as int, enc_field(g)) implies false by {
                    if let FieldView::Text(t) = g {
                        lemma_holds_split(input@, pos as int, digits(t.len()).push(':'), t);
                        assert(input@.subrange(pos as int, pos + digits(t.len()).len() + 1)
                            == digits(t.len()).push(':'));
                    }
                }
            }
            None
        },
        Some((len, start)) => {
            if len > (input.len() - start) as u64 {
                proof {
                    assert forall|g: FieldView| #[trigger] holds_at(input@, pos as int, enc_field(g)) implies false by {
                        if let FieldView::Text(t) = g {
                            lemma_holds_split(input@, pos as int, digits(t.len()).push(':'), t);
                            assert(input@.subrange(pos as int, pos + digits(t.len()).len() + 1)
                                == digits(t.len()).push(':'));
                        }
                    }
                }
                return None;
            }
            let end = start + len as usize;
            let mut text = String::new();
            let mut i: usize = start;
            while i < end
                invariant
                    start <= i <= end <= input@.len(),
                    text@ == input@.subrange(start as int, i as int),
                decreases end - i,
            {
                push_char(&mut text, input[i]);
                i = i + 1;
                assert(text@ =~= input@.subrange(start as int, i as int));
            }
            proof {
                let f = FieldView::Text(text@);
                lemma_holds_join(input@, pos as int, digits(len as nat).push(':'), text@);
                assert forall|g: FieldView| #[trigger] holds_at(input@, pos as int, enc_field(g)) implies g == f by {
                    if let FieldView::Text(t) = g {
                        lemma_holds_split(input@, pos as int, digits(t.len()).push(':'), t);
                        assert(input@.subrange(pos as int, pos + digits(t.len()).len() + 1)
                            == digits(t.len()).push(':'));
                        assert(t.len() == len);
                        assert(t =~= text@);
                    }
                }
            }
            Some((Field::Text(text), end))
        },
    }
}

proof fn lemma_enc_fields_split(fs: Seq<FieldView>, k: int)
    requires
        0 <= k <= fs.len(),
    ensures
        enc_fields(fs) == enc_fields(fs.subrange(0, k)) + enc_fields(fs.subrange(k, fs.len() as int)),
    decreases fs.len(),
{
    if k == fs.len() {
        assert(fs.subrange(0, k) =~= fs);
        assert(fs.subrange(k, fs.len() as int) =~= Seq::<FieldView>::empty());
        assert(enc_fields(fs) + Seq::<char>::empty() =~= enc_fields(fs));
    } else {
        lemma_enc_fields_split(fs.drop_last(), k);
        assert(fs.drop_last().subrange(0, k) =~= fs.subrange(0, k));
        let t = fs.subrange(k, fs.len() as int);
        assert(t.drop_last() =~= fs.drop_last().subrange(k, fs.len() - 1));
        assert(t.last() == fs.last());
    }
}

proof fn lemma_enc_doc_split(d: Seq<Seq<FieldView>>, k: int)
    requires
        0 <= k <= d.len(),
    ensures
        enc_doc(d) == enc_doc(d.subrange(0, k)) + enc_doc(d.subrange(k, d.len() as int)),
    decreases d.len(),
{
    if k == d.len() {
        assert(d.subrange(0, k) =~= d);
        assert(d.subrange(k, d.len() as int) =~= Seq::<Seq<FieldView>>::empty());
        assert(enc_doc(d) + Seq::<char>::empty() =~= enc_doc(d));
    } else {
        lemma_enc_doc_split(d.drop_last(), k);
        assert(d.drop_last().subrange(0, k) =~= d.subrange(0, k));
        let t = d.subrange(k, d.len() as int);
        assert(t.drop_last() =~= d.drop_last().subrange(k, d.len() - 1));
        assert(t.last() == d.last());
    }
}

/// Where a line `fs` is written from `pos` on and its first `k` fields are
/// known, field `k` follows, or the line's end when there is none.
proof fn lemma_line_step(input: Seq<char>, pos: int, fs: Seq<FieldView>, k: int)
    requires
        holds_at(input, pos, enc_line(fs)),
        0 <= k <= fs.len(),
    ensures
        k < fs.len() ==> holds_at(input, pos + enc_fields(fs.subrange(0, k)).len(), enc_field(fs[k]))
            && digit_of(input[pos + enc_fields(fs.subrange(0, k)).len()]) is Some,
        k == fs.len() ==> pos + enc_fields(fs).len() < input.len() && input[pos + enc_fields(fs).len()]
            == '\n' && fs.subrange(0, k) == fs,
{
    lemma_enc_fields_split(fs, k);
    let a = enc_fields(fs.subrange(0, k));
    let rest = enc_fields(fs.subrange(k, fs.len() as int)).push('\n');
    assert(enc_line(fs) =~= a + rest);
    lemma_holds_split(input, pos, a, rest);
    if k < fs.len() {
        let t = fs.subrange(k, fs.len() as int);
        lemma_enc_fields_split(t, 1);
        assert(t.subrange(0, 1).drop_last() =~= Seq::<FieldView>::empty());
        assert(t.subrange(0, 1).last() == fs[k]);
        assert(enc_fields(t.subrange(0, 1).drop_last()) == Seq::<char>::empty());
        assert(enc_fields(t.subrange(0, 1)) =~= enc_field(fs[k]));
        let tail = enc_fields(t.subrange(1, t.len() as int)).push('\n');
        assert(rest =~= enc_field(fs[k]) + tail);
        lemma_holds_split(input, pos + a.len(), enc_field(fs[k]), tail);
        lemma_field_starts_with_digit(fs[k]);
        assert(input[pos + a.len()] == input.subrange(pos + a.len(), pos + a.len() + enc_field(fs[k]).len())[0]);
    } else {
        assert(fs.subrange(0, k) =~= fs);
        assert(fs.subrange(k, fs.len() as int) =~= Seq::<FieldView>::empty());
        assert(input[pos + a.len()] == input.subrange(pos + a.len(), pos + a.len() + rest.len())[0]);
    }
}

/// Reads one line at `pos`; succeeds exactly where the input holds the
/// encoding of a line, and returns its fields.
pub fn parse_line(input: &Vec<char>, pos: usize) -> (r: Option<(Vec<Field>, usize)>)
    requires
        pos <= input@.len(),
    ensures
        r matches Some((l, next)) ==> next == pos + enc_line(line_view(l)).len() && holds_at(
            input@,
            pos as int,
            enc_line(line_view(l)),
        ),
        forall|fs: Seq<FieldView>| #[trigger]
            holds_at(input@, pos as int, enc_line(fs)) ==> (r matches Some((l, next))
                && line_view(l) == fs && next == pos + enc_line(fs).len()),
{
    let mut fields: Vec<Field> = Vec::new();
    let mut cur: usize = pos;
    assert(input@.subrange(pos as int, pos as int) =~= Seq::<char>::empty());
    assert(line_view(fields) =~= Seq::<FieldView>::empty());
    loop
        invariant
            pos <= cur <= input@.len(),
            cur == pos + enc_fields(line_view(fields)).len(),
            holds_at(input@, pos as int, enc_fields(line_view(fields))),
            forall|fs: Seq<FieldView>| #[trigger]
                holds_at(input@, pos as int, enc_line(fs)) ==> line_view(fields).len() <= fs.len()
                    && line_view(fields) == fs.subrange(0, line_view(fields).len() as int),
        decreases input@.len() - cur,
    {
        let ghost k = fields@.len() as int;
        if cur >= input.len() {
            proof {
                assert forall|fs: Seq<FieldView>| #[trigger] holds_at(input@, pos as int, enc_line(fs)) implies false by {
                    lemma_line_step(input@, pos as int, fs, k);
                    if k < fs.len() {
                        lemma_field_starts_with_digit(fs[k]);
                    }
                }
            }
            return None;
        }
        if input[cur] == '\n' {
            proof {
                assert(input@.subrange(cur as int, cur + 1) =~= seq!['\n']);
                lemma_holds_join(input@, pos as int, enc_fields(line_view(fields)), seq!['\n']);
                assert(enc_fields(line_view(fields)) + seq!['\n'] =~= enc_line(line_view(fields)));
                assert forall|fs: Seq<FieldView>| #[trigger] holds_at(input@, pos as int, enc_line(fs)) implies line_view(fields) == fs by {
                    lemma_line_step(input@, pos as int, fs, k);
                }
            }
            return Some((fields, cur + 1));
        }
        match parse_field(input, cur) {
            None => {
                proof {
                    assert forall|fs: Seq<FieldView>| #[trigger] holds_at(input@, pos as int, enc_line(fs)) implies false by {
                        lemma_line_step(input@, pos as int, fs, k);
                    }
                }
                return None;
            },
            Some((f, next)) => {
                let ghost before = line_view(fields);
                fields.push(f);
                proof {
                    assert(line_view(fields) =~= before.push(f@));
                    assert(line_view(fields).drop_last() =~= before);
                    lemma_holds_join(input@, pos as int, enc_fields(before), enc_field(f@));
                    assert forall|fs: Seq<FieldView>| #[trigger] holds_at(input@, pos as int, enc_line(fs)) implies line_view(fields).len() <= fs.len()
                        && line_view(fields) == fs.subrange(0, line_view(fields).len() as int) by {
                        lemma_line_step(input@, pos as int, fs, k);
                        if k == fs.len() {
                            assert(input@[cur as int] == '\n');
                        }
                        assert(line_view(fields) =~= fs.subrange(0, k + 1));
                    }
                }
                cur = next;
            },
        }
    }
}

/// Reads a whole document; succeeds exactly where the input is the
/// encoding of a document, and returns its lines.
pub fn parse_document(input: &Vec<char>) -> (r: Option<Vec<Vec<Field>>>)
    ensures
        r matches Some(d) ==> enc_doc(doc_view(d@)) == input@,
        forall|ds: Seq<Seq<FieldView>>| #[trigger]
            enc_doc(ds) == input@ ==> (r matches Some(d) && doc_view(d@) == ds),
{
    let mut lines: Vec<Vec<Field>> = Vec::new();
    let mut cur: usize = 0;
    assert(input@.subrange(0, 0) =~= Seq::<char>::empty());
    assert(doc_view(lines@) =~= Seq::<Seq<FieldView>>::empty());
    while cur < input.len()
        invariant
            cur <= input@.len(),
            input@.subrange(0, cur as int) == enc_doc(doc_view(lines@)),
            forall|ds: Seq<Seq<FieldView>>| #[trigger]
                enc_doc(ds) == input@ ==> doc_view(lines@).len() <= ds.len() && doc_view(lines@)
                    == ds.subrange(0, doc_view(lines@).len() as int),
        decreases input@.len() - cur,
    {
        let ghost k = lines@.len() as int;
        let ghost before = doc_view(lines@);
        proof {
            assert forall|ds: Seq<Seq<FieldView>>| #[trigger] enc_doc(ds) == input@ implies k < ds.len()
                && holds_at(input@, cur as int, enc_line(ds[k])) by {
                lemma_enc_doc_split(ds, k);
                if k == ds.len() {
                    assert(ds.subrange(k, ds.len() as int) =~= Seq::<Seq<FieldView>>::empty());
                    assert(ds.subrange(0, k) =~= ds);
                }
                let t = ds.subrange(k, ds.len() as int);
                lemma_enc_doc_split(t, 1);
                assert(t.subrange(0, 1).drop_last() =~= Seq::<Seq<FieldView>>::empty());
                assert(t.subrange(0, 1).last() == ds[k]);
                let tail = enc_doc(t.subrange(1, t.len() as int));
                assert(enc_doc(t.subrange(0, 1).drop_last()) == Seq::<char>::empty());
                assert(enc_doc(t.subrange(0, 1)) =~= enc_line(ds[k]));
                assert(ds.subrange(0, k) == before);
                assert(input@ =~= enc_doc(before) + (enc_line(ds[k]) + tail));
                assert(holds_at(input@, 0, enc_doc(before) + (enc_line(ds[k]) + tail))) by {
                    assert(input@.subrange(0, input@.len() as int) =~= input@);
                }
                lemma_holds_split(input@, 0, enc_doc(before), enc_line(ds[k]) + tail);
                lemma_holds_split(input@, cur as int, enc_line(ds[k]), tail);
            }
        }
        match parse_line(input, cur) {
            None => {
                return None;
            },
            Some((l, next)) => {
                lines.push(l);
                proof {
                    assert(doc_view(lines@) =~= before.push(line_view(l)));
                    assert(doc_view(lines@).drop_last() =~= before);
                    assert(input@.subrange(0, next as int) =~= input@.subrange(0, cur as int) + input@.subrange(cur as int, next as int));
                    assert forall|ds: Seq<Seq<FieldView>>| #[trigger] enc_doc(ds) == input@ implies doc_view(lines@).len() <= ds.len()
                        && doc_view(lines@) == ds.subrange(0, doc_view(lines@).len() as int) by {
                        assert(doc_view(lines@) =~= ds.subrange(0, k + 1));
                    }
                }
                cur = next;
            },
        }
    }
    proof {
        assert(input@.subrange(0, cur as int) =~= input@);
        assert forall|ds: Seq<Seq<FieldView>>| #[trigger] enc_doc(ds) == input@ implies doc_view(lines@) == ds by {
            let k = doc_view(lines@).len() as int;
            lemma_enc_doc_split(ds, k);
            if k < ds.len() {
                let t = ds.subrange(k, ds.len() as int);
                lemma_enc_doc_split(t, 1);
                assert(t.subrange(0, 1).drop_last() =~= Seq::<Seq<FieldView>>::empty());
                assert(enc_doc(t.subrange(0, 1)).len() >= 1);
            }
            assert(ds.subrange(0, k) =~= ds);
        }
    }
    Some(lines)
}

fn push_field(f: &Field, out: &mut Vec<char>)
    ensures
        final(out)@ == old(out)@ + enc_field(f@),
{
    match f {
        Field::Num(n) => {
            push_digits(*n, out);
            out.push(',');
        },
        Field::Text(t) => {
            let s = t.as_str();
            let n = s.unicode_len();
            push_digits(n as u64, out);
            out.push(':');
            let ghost base = out@;
            let mut i: usize = 0;
            while i < n
                invariant
                    n == t@.len(),
                    s@ == t@,
                    i <= n,
                    out@ == base + t@.subrange(0, i as int),
                decreases n - i,
            {
                out.push(s.get_char(i));
                i = i + 1;
                assert(out@ =~= base + t@.subrange(0, i as int));
            }
            assert(t@.subrange(0, n as int) =~= t@);
        },
    }
    assert(final(out)@ =~= old(out)@ + enc_field(f@));
}

/// The text of a document.
pub fn encode_document(d: &Vec<Vec<Field>>) -> (r: Vec<char>)
    ensures
        r@ == enc_doc(doc_view(d@)),
{
    let mut out: Vec<char> = Vec::new();
    let mut i: usize = 0;
    while i < d.len()
        invariant
            i <= d@.len(),
            out@ == enc_doc(doc_view(d@.subrange(0, i as int))),
        decreases d@.len() - i,
    {
        let line = &d[i];
        let ghost start = out@;
        let mut j: usize = 0;
        assert(line_view(*line).subrange(0, 0) =~= Seq::<FieldView>::empty());
        while j < line.len()
            invariant
                i < d@.len(),
                *line == d@[i as int],
                j <= line@.len(),
                out@ == start + enc_fields(line_view(*line).subrange(0, j as int)),
            decreases line@.len() - j,
        {
            push_field(&line[j], &mut out);
            proof {
                let fs = line_view(*line).subrange(0, j + 1);
                assert(fs.drop_last() =~= line_view(*line).subrange(0, j as int));
                assert(fs.last() == line[j as int]@);
            }
            j = j + 1;
        }
        out.push('\n');
        proof {
            assert(line_view(*line).subrange(0, line@.len() as int) =~= line_view(*line));
            let dv = doc_view(d@.subrange(0, i + 1));
            assert(dv.drop_last() =~= doc_view(d@.subrange(0, i as int)));
            assert(dv.last() == line_view(*line));
            assert(out@ =~= enc_doc(dv));
        }
        i = i + 1;
    }
    assert(d@.subrange(0, d@.len() as int) =~= d@);
    out
}

} // verus!
