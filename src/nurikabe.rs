use vstd::prelude::*;

verus! {

/// A puzzle grid together with the presentation data of a solver run.
#[derive(Clone, Debug)]
pub struct Nurikabe {
    pub path: String,
    pub width: usize,
    pub height: usize,
    pub solved: bool,
    pub iteration: usize,
    pub data: Vec<i32>,
    pub duration: usize,
    pub verbose: String,
}

impl Nurikabe {
    pub fn new(width: usize, height: usize, data: Vec<i32>) -> (r: Self)
        ensures
            r.width == width,
            r.height == height,
            r.data@ == data@,
            !r.solved,
            r.iteration == 0,
            r.duration == 0,
            r.path@.len() == 0,
            r.verbose@.len() == 0,
    {
        Nurikabe {
            path: String::new(),
            width,
            height,
            solved: false,
            iteration: 0,
            data,
            duration: 0,
            verbose: String::new(),
        }
    }

    /// The grid is rectangular: one value per cell.
    pub open spec fn well_formed(&self) -> bool {
        self.data@.len() == self.width * self.height
    }
}

/// Pieces of `s` between occurrences of `sep`, the current piece starting with `cur`.
pub open spec fn split_acc(s: Seq<char>, sep: char, cur: Seq<char>) -> Seq<Seq<char>>
    decreases s.len(),
{
    if s.len() == 0 {
        seq![cur]
    } else if s[0] == sep {
        seq![cur] + split_acc(s.drop_first(), sep, seq![])
    } else {
        split_acc(s.drop_first(), sep, cur.push(s[0]))
    }
}

/// Pieces of `s` between occurrences of `sep` (one piece more than separators).
pub open spec fn split(s: Seq<char>, sep: char) -> Seq<Seq<char>> {
    split_acc(s, sep, seq![])
}

/// The lines of `s`: no line after a final newline, none in empty text.
pub open spec fn lines(s: Seq<char>) -> Seq<Seq<char>> {
    let p = split(s, '\n');
    if p.last().len() == 0 {
        p.drop_last()
    } else {
        p
    }
}

/// Unicode white space (the `White_Space` property).
pub open spec fn is_ws(c: char) -> bool {
    ('\u{9}' <= c && c <= '\u{d}') || c == ' ' || c == '\u{85}' || c == '\u{a0}' || c == '\u{1680}' || ('\u{2000}' <= c
        && c <= '\u{200a}') || c == '\u{2028}' || c == '\u{2029}' || c == '\u{202f}' || c == '\u{205f}' || c == '\u{3000}'
}

pub open spec fn trim_start(s: Seq<char>) -> Seq<char>
    decreases s.len(),
{
    if s.len() > 0 && is_ws(s[0]) {
        trim_start(s.drop_first())
    } else {
        s
    }
}

pub open spec fn trim_end(s: Seq<char>) -> Seq<char>
    decreases s.len(),
{
    if s.len() > 0 && is_ws(s.last()) {
        trim_end(s.drop_last())
    } else {
        s
    }
}

/// `s` without leading and trailing white space.
pub open spec fn trim(s: Seq<char>) -> Seq<char> {
    trim_end(trim_start(s))
}

pub open spec fn is_digit(c: char) -> bool {
    '0' <= c && c <= '9'
}

/// The number that the decimal digits `s` spell.
pub open spec fn digits_value(s: Seq<char>) -> int
    decreases s.len(),
{
    if s.len() == 0 {
        0
    } else {
        digits_value(s.drop_last()) * 10 + (s.last() as int - '0' as int)
    }
}

/// The token starts with a sign.
pub open spec fn has_sign(t: Seq<char>) -> bool {
    t.len() > 0 && (t[0] == '-' || t[0] == '+')
}

/// The digits of a token, after its sign.
pub open spec fn token_body(t: Seq<char>) -> Seq<char> {
    if has_sign(t) {
        t.drop_first()
    } else {
        t
    }
}

pub open spec fn all_digits(s: Seq<char>) -> bool {
    forall|i: int| 0 <= i < s.len() ==> is_digit(#[trigger] s[i])
}

/// The value a token spells, sign included.
pub open spec fn token_number(t: Seq<char>) -> int {
    if t.len() > 0 && t[0] == '-' {
        -digits_value(token_body(t))
    } else {
        digits_value(token_body(t))
    }
}

/// The `i32` that a token spells: an optional sign, then one or more
/// decimal digits, within range.
pub open spec fn token_value(t: Seq<char>) -> Option<i32> {
    if token_body(t).len() == 0 || !all_digits(token_body(t)) {
        None
    } else if i32::MIN <= token_number(t) <= i32::MAX {
        Some(token_number(t) as i32)
    } else {
        None
    }
}

/// A cell value as read: positive values are clues, the rest unknown (-3).
pub open spec fn normalized(v: i32) -> i32 {
    if v <= 0 {
        -3i32
    } else {
        v
    }
}

/// Every token of the list is a number.
pub open spec fn tokens_ok(toks: Seq<Seq<char>>) -> bool {
    forall|k: int| 0 <= k < toks.len() ==> (#[trigger] token_value(trim(toks[k]))) is Some
}

/// The values of a line, or `None` where a token is not a number.
pub open spec fn row_values(line: Seq<char>) -> Option<Seq<i32>> {
    if tokens_ok(split(line, ',')) {
        Some(Seq::new(split(line, ',').len(), |k: int| normalized(token_value(trim(split(line, ',')[k]))->Some_0)))
    } else {
        None
    }
}

/// Every line is a row of numbers as long as the first.
pub open spec fn lines_ok(ls: Seq<Seq<char>>) -> bool {
    forall|r: int|
        0 <= r < ls.len() ==> (#[trigger] row_values(ls[r])) is Some && row_values(ls[r])->Some_0.len()
            == row_values(ls[0])->Some_0.len()
}

/// The rows of the text, all numbers and all as long as the first.
pub open spec fn rows_ok(s: Seq<char>) -> bool {
    lines_ok(lines(s))
}

/// The values of the rows, one after another.
pub open spec fn grid_values(s: Seq<char>) -> Seq<i32> {
    let ls = lines(s);
    Seq::new(ls.len(), |r: int| row_values(ls[r])->Some_0).flatten()
}

} // verus!

verus! {

/// The characters of `s`.
fn chars_of(s: &str) -> (r: Vec<char>)
    ensures
        r@ == s@,
{
    let n = s.unicode_len();
    let mut r: Vec<char> = Vec::new();
    let mut i: usize = 0;
    while i < n
        invariant
            n == s@.len(),
            i <= n,
            r@ == s@.subrange(0, i as int),
        decreases n - i,
    {
        r.push(s.get_char(i));
        i = i + 1;
        assert(r@ =~= s@.subrange(0, i as int));
    }
    assert(r@ =~= s@);
    r
}

/// Splits `v` at every `sep`.
fn split_chars(v: &Vec<char>, sep: char) -> (r: Vec<Vec<char>>)
    ensures
        r@.len() == split(v@, sep).len(),
        forall|k: int| 0 <= k < r@.len() ==> (#[trigger] r@[k])@ == split(v@, sep)[k],
{
    let n = v.len();
    let mut pieces: Vec<Vec<char>> = Vec::new();
    let mut cur: Vec<char> = Vec::new();
    let ghost done: Seq<Seq<char>> = seq![];
    let mut i: usize = 0;
    assert(v@.subrange(0, n as int) =~= v@);
    assert(cur@ =~= Seq::<char>::empty());
    assert(done + split_acc(v@.subrange(0, n as int), sep, cur@) =~= split(v@, sep));
    while i < n
        invariant
            n == v@.len(),
            i <= n,
            pieces@.len() == done.len(),
            forall|k: int| 0 <= k < pieces@.len() ==> (#[trigger] pieces@[k])@ == done[k],
            done + split_acc(v@.subrange(i as int, n as int), sep, cur@) == split(v@, sep),
        decreases n - i,
    {
        let c = v[i];
        let ghost rest = v@.subrange(i as int, n as int);
        assert(rest.drop_first() =~= v@.subrange(i + 1, n as int));
        if c == sep {
            proof {
                assert(done + split_acc(rest, sep, cur@) == (done + seq![cur@]) + split_acc(v@.subrange(i + 1, n as int), sep, seq![]));
                done = done + seq![cur@];
            }
            pieces.push(cur);
            cur = Vec::new();
            assert(cur@ =~= seq![]);
        } else {
            cur.push(c);
        }
        i = i + 1;
    }
    proof {
        assert(v@.subrange(n as int, n as int) =~= Seq::<char>::empty());
        done = done + seq![cur@];
    }
    pieces.push(cur);
    pieces
}

proof fn lemma_split_nonempty(s: Seq<char>, sep: char, cur: Seq<char>)
    ensures
        split_acc(s, sep, cur).len() >= 1,
    decreases s.len(),
{
    if s.len() > 0 {
        lemma_split_nonempty(s.drop_first(), sep, if s[0] == sep { seq![] } else { cur.push(s[0]) });
    }
}

/// White space, as the format allows it around numbers.
fn ws(c: char) -> (r: bool)
    ensures
        r == is_ws(c),
{
    ('\u{9}' <= c && c <= '\u{d}') || c == ' ' || c == '\u{85}' || c == '\u{a0}' || c == '\u{1680}' || ('\u{2000}' <= c
        && c <= '\u{200a}') || c == '\u{2028}' || c == '\u{2029}' || c == '\u{202f}' || c == '\u{205f}' || c == '\u{3000}'
}

proof fn lemma_trim_start_step(s: Seq<char>, a: int)
    requires
        0 <= a < s.len(),
        is_ws(s[a]),
    ensures
        trim_start(s.subrange(a, s.len() as int)) == trim_start(s.subrange(a + 1, s.len() as int)),
{
    assert(s.subrange(a, s.len() as int).drop_first() =~= s.subrange(a + 1, s.len() as int));
}

proof fn lemma_trim_end_step(s: Seq<char>, b: int)
    requires
        0 < b <= s.len(),
        is_ws(s[b - 1]),
    ensures
        trim_end(s.subrange(0, b)) == trim_end(s.subrange(0, b - 1)),
{
    assert(s.subrange(0, b).drop_last() =~= s.subrange(0, b - 1));
}

/// The bounds of `v` without leading and trailing whitespace.
fn trim_bounds(v: &Vec<char>) -> (r: (usize, usize))
    ensures
        r.0 <= r.1 <= v@.len(),
        v@.subrange(r.0 as int, r.1 as int) == trim(v@),
{
    let n = v.len();
    let mut a: usize = 0;
    assert(v@.subrange(0, n as int) =~= v@);
    while a < n && ws(v[a])
        invariant
            n == v@.len(),
            a <= n,
            trim_start(v@) == trim_start(v@.subrange(a as int, n as int)),
        decreases n - a,
    {
        proof {
            lemma_trim_start_step(v@, a as int);
        }
        a = a + 1;
    }
    let ghost t = v@.subrange(a as int, n as int);
    assert(trim_start(v@) == t);
    let mut b: usize = n;
    assert(t.subrange(0, t.len() as int) =~= t);
    while b > a && ws(v[b - 1])
        invariant
            n == v@.len(),
            a <= b <= n,
            t == v@.subrange(a as int, n as int),
            trim_end(t) == trim_end(v@.subrange(a as int, b as int)),
        decreases b - a,
    {
        proof {
            let u = v@.subrange(a as int, b as int);
            assert(u[u.len() - 1] == v@[b - 1]);
            lemma_trim_end_step(u, (b - a) as int);
            assert(u.subrange(0, (b - a) as int) =~= u);
            assert(u.subrange(0, (b - a - 1) as int) =~= v@.subrange(a as int, b - 1));
        }
        b = b - 1;
    }
    (a, b)
}

proof fn lemma_digits_monotone(s: Seq<char>, k: int)
    requires
        0 <= k <= s.len(),
        forall|i: int| 0 <= i < s.len() ==> is_digit(#[trigger] s[i]),
    ensures
        0 <= digits_value(s.subrange(0, k)) <= digits_value(s),
    decreases s.len() - k,
{
    if k < s.len() {
        lemma_digits_monotone(s, k + 1);
        let p = s.subrange(0, k + 1);
        assert(p.drop_last() =~= s.subrange(0, k));
    } else {
        assert(s.subrange(0, k) =~= s);
    }
    lemma_digits_nonneg(s.subrange(0, k));
}

proof fn lemma_digits_nonneg(s: Seq<char>)
    requires
        forall|i: int| 0 <= i < s.len() ==> is_digit(#[trigger] s[i]),
    ensures
        digits_value(s) >= 0,
    decreases s.len(),
{
    if s.len() > 0 {
        lemma_digits_nonneg(s.drop_last());
    }
}

/// Reads the token `v[a..b]` as an `i32`.
fn parse_token(v: &Vec<char>, a: usize, b: usize) -> (r: Option<i32>)
    requires
        a <= b <= v@.len(),
    ensures
        r == token_value(v@.subrange(a as int, b as int)),
{
    let ghost t = v@.subrange(a as int, b as int);
    let mut start = a;
    let neg = a < b && v[a] == '-';
    if a < b && (v[a] == '-' || v[a] == '+') {
        start = a + 1;
    }
    let ghost body = v@.subrange(start as int, b as int);
    proof {
        if a < b {
            assert(t[0] == v@[a as int]);
        }
        if has_sign(t) {
            assert(body =~= t.drop_first());
        } else {
            assert(body =~= t);
        }
        assert(body == token_body(t));
        assert(neg == (t.len() > 0 && t[0] == '-'));
    }
    if start == b {
        assert(token_body(t).len() == 0);
        assert(token_value(t) is None);
        return None;
    }
    let mut value: i64 = 0;
    let mut i = start;
    while i < b
        invariant
            start <= i <= b <= v@.len(),
            a <= start,
            t == v@.subrange(a as int, b as int),
            body == token_body(t),
            neg == (t.len() > 0 && t[0] == '-'),
            body == v@.subrange(start as int, b as int),
            forall|j: int| 0 <= j < i - start ==> is_digit(#[trigger] body[j]),
            value == digits_value(body.subrange(0, i - start)),
            0 <= value <= 2_147_483_648,
        decreases b - i,
    {
        let c = v[i];
        assert(body[i - start] == v@[i as int]);
        if !('0' <= c && c <= '9') {
            assert(!is_digit(body[i - start]));
            return None;
        }
        let d = (c as u32 - '0' as u32) as i64;
        proof {
            let p = body.subrange(0, i - start + 1);
            assert(p.drop_last() =~= body.subrange(0, i - start));
        }
        assert(body[i - start] == v@[i as int]);
        value = value * 10 + d;
        i = i + 1;
        if value > 2_147_483_648 {
            let mut k = i;
            while k < b
                invariant
                    start <= i <= k <= b <= v@.len(),
                    t == v@.subrange(a as int, b as int),
                    body == token_body(t),
                    neg == (t.len() > 0 && t[0] == '-'),
                    body == v@.subrange(start as int, b as int),
                    forall|j: int| 0 <= j < k - start ==> is_digit(#[trigger] body[j]),
                decreases b - k,
            {
                let c = v[k];
                assert(body[k - start] == v@[k as int]);
                if !('0' <= c && c <= '9') {
                    assert(!is_digit(body[k - start]));
                    return None;
                }
                k = k + 1;
            }
            proof {
                lemma_digits_monotone(body, i - start);
            }
            return None;
        }
    }
    assert(body.subrange(0, body.len() as int) =~= body);
    if neg {
        Some((-value) as i32)
    } else {
        if value > 2_147_483_647 {
            return None;
        }
        Some(value as i32)
    }
}

/// The values of one line, or `None` where a token is not a number.
fn parse_row(line: &Vec<char>) -> (r: Option<Vec<i32>>)
    ensures
        r is Some <==> row_values(line@) is Some,
        r matches Some(v) ==> v@ == row_values(line@)->Some_0,
{
    let toks = split_chars(line, ',');
    let ghost st = split(line@, ',');
    let mut vals: Vec<i32> = Vec::new();
    let mut k: usize = 0;
    while k < toks.len()
        invariant
            st == split(line@, ','),
            toks@.len() == st.len(),
            forall|j: int| 0 <= j < toks@.len() ==> (#[trigger] toks@[j])@ == st[j],
            k <= toks@.len(),
            vals@.len() == k,
            forall|j: int| 0 <= j < k ==> (#[trigger] token_value(trim(st[j]))) is Some,
            forall|j: int| 0 <= j < k ==> #[trigger] vals@[j] == normalized(token_value(trim(st[j]))->Some_0),
        decreases toks@.len() - k,
    {
        let tok = &toks[k];
        let (a, b) = trim_bounds(tok);
        match parse_token(tok, a, b) {
            Some(v) => {
                vals.push(if v <= 0 { -3 } else { v });
            },
            None => {
                assert(!(token_value(trim(st[k as int])) is Some));
                assert(!tokens_ok(st));
                return None;
            },
        }
        k = k + 1;
    }
    assert(vals@ =~= Seq::new(st.len(), |j: int| normalized(token_value(trim(st[j]))->Some_0)));
    Some(vals)
}

/// Reads a puzzle: one line per row, comma-separated integers; values of
/// zero or less are unknown cells. The width is the number of values in the
/// first row. A token that is not an integer, or a row of another width, is
/// an error.
pub fn load_nurikabe(input: &str) -> (r: Result<Nurikabe, String>)
    ensures
        r is Ok <==> rows_ok(input@),
        r matches Ok(n) ==> {
            &&& n.height == lines(input@).len()
            &&& n.width == if lines(input@).len() == 0 { 0 } else { row_values(lines(input@)[0])->Some_0.len() }
            &&& n.data@ == grid_values(input@)
            &&& n.well_formed()
        },
{
    let chars = chars_of(input);
    let parts = split_chars(&chars, '\n');
    let ghost sp = split(input@, '\n');
    let ghost ls = lines(input@);
    proof {
        lemma_split_nonempty(input@, '\n', seq![]);
    }
    let mut count = parts.len();
    if parts[count - 1].len() == 0 {
        count = count - 1;
    }
    assert(ls.len() == count);
    assert(forall|r: int| 0 <= r < count ==> ls[r] == sp[r]);
    let mut data: Vec<i32> = Vec::new();
    let mut width: usize = 0;
    let mut r: usize = 0;
    while r < count
        invariant
            ls == lines(input@),
            sp == split(input@, '\n'),
            count == ls.len(),
            count <= parts@.len(),
            parts@.len() == sp.len(),
            forall|j: int| 0 <= j < parts@.len() ==> (#[trigger] parts@[j])@ == sp[j],
            forall|j: int| 0 <= j < count ==> #[trigger] ls[j] == sp[j],
            r <= count,
            forall|j: int| 0 <= j < r ==> (#[trigger] row_values(ls[j])) is Some && row_values(ls[j])->Some_0.len() == width,
            r > 0 ==> width == row_values(ls[0])->Some_0.len(),
            r == 0 ==> width == 0,
            data@ == Seq::new(r as nat, |j: int| row_values(ls[j])->Some_0).flatten(),
            data@.len() == r * width,
        decreases count - r,
    {
        match parse_row(&parts[r]) {
            Some(vals) => {
                if r == 0 {
                    width = vals.len();
                } else if vals.len() != width {
                    assert(!lines_ok(ls)) by {
                        assert(row_values(ls[r as int])->Some_0.len() != row_values(ls[0])->Some_0.len());
                    }
                    return Err("Make sure the data is correctly formatted: rows differ in length.".to_owned());
                }
                proof {
                    let rows = Seq::new(r as nat, |j: int| row_values(ls[j])->Some_0);
                    assert(Seq::new((r + 1) as nat, |j: int| row_values(ls[j])->Some_0) =~= rows.push(vals@));
                    rows.lemma_flatten_push(vals@);
                    assert((r + 1) * width == r * width + width) by (nonlinear_arith);
                }
                let mut k: usize = 0;
                let ghost d0 = data@;
                while k < vals.len()
                    invariant
                        k <= vals@.len(),
                        data@ == d0 + vals@.subrange(0, k as int),
                    decreases vals@.len() - k,
                {
                    data.push(vals[k]);
                    k = k + 1;
                    assert(data@ =~= d0 + vals@.subrange(0, k as int));
                }
                assert(vals@.subrange(0, vals@.len() as int) =~= vals@);
            },
            None => {
                assert(!lines_ok(ls)) by {
                    assert(!(row_values(ls[r as int]) is Some));
                }
                return Err("Make sure the data is correctly formatted: a value is not an integer.".to_owned());
            },
        }
        r = r + 1;
    }
    assert(Seq::new(count as nat, |j: int| row_values(ls[j])->Some_0) =~= Seq::new(ls.len(), |j: int| row_values(ls[j])->Some_0));
    assert(data@ == grid_values(input@));
    assert(count * width == width * count) by (nonlinear_arith);
    assert(lines_ok(ls));
    Ok(Nurikabe::new(width, count, data))
}

} // verus!
