//! Character-level string operations with their specifications.
use vstd::prelude::*;
use vstd::string::*;

verus! {

/// The pieces of `s` between occurrences of `sep`, as `str::split` yields them:
/// one more piece than there are separators, pieces possibly empty.
pub open spec fn split_on(s: Seq<char>, sep: char) -> Seq<Seq<char>>
    decreases s.len(),
{
    if s.len() == 0 {
        seq![Seq::<char>::empty()]
    } else {
        let head = split_on(s.drop_last(), sep);
        if s.last() == sep {
            head.push(Seq::<char>::empty())
        } else {
            head.update(head.len() - 1, head.last().push(s.last()))
        }
    }
}

/// Splitting always yields at least one piece.
pub proof fn lemma_split_on_len(s: Seq<char>, sep: char)
    ensures
        split_on(s, sep).len() >= 1,
    decreases s.len(),
{
    if s.len() > 0 {
        lemma_split_on_len(s.drop_last(), sep);
    }
}

/// The non-empty pieces of `ps`, in order.
pub open spec fn drop_empty(ps: Seq<Seq<char>>) -> Seq<Seq<char>>
    decreases ps.len(),
{
    if ps.len() == 0 {
        Seq::<Seq<char>>::empty()
    } else {
        let rest = drop_empty(ps.drop_last());
        if ps.last().len() == 0 {
            rest
        } else {
            rest.push(ps.last())
        }
    }
}

/// The non-empty `/`-separated segments of a path or a path pattern.
pub open spec fn segments(s: Seq<char>) -> Seq<Seq<char>> {
    drop_empty(split_on(s, '/'))
}

/// The character sequences of a sequence of string slices.
pub open spec fn str_views(v: Seq<&str>) -> Seq<Seq<char>> {
    v.map_values(|x: &str| x@)
}

/// The character sequences of a sequence of owned strings.
pub open spec fn string_views(v: Seq<String>) -> Seq<Seq<char>> {
    v.map_values(|x: String| x@)
}

/// Splits `s` at every occurrence of `sep`, keeping empty pieces.
pub fn split_pieces<'a>(s: &'a str, sep: char) -> (pieces: Vec<&'a str>)
    ensures
        str_views(pieces@) == split_on(s@, sep),
{
    let n = s.unicode_len();
    let mut pieces: Vec<&'a str> = Vec::new();
    let mut start: usize = 0;
    let mut i: usize = 0;
    assert(s@.take(0) =~= Seq::<char>::empty());
    assert(s@.subrange(0, 0) =~= Seq::<char>::empty());
    assert(str_views(pieces@) =~= Seq::<Seq<char>>::empty());
    while i < n
        invariant
            n == s@.len(),
            start <= i <= n,
            split_on(s@.take(i as int), sep) == str_views(pieces@).push(
                s@.subrange(start as int, i as int),
            ),
        decreases n - i,
    {
        let c = s.get_char(i);
        let ghost before = pieces@;
        assert(s@.take(i + 1).drop_last() =~= s@.take(i as int));
        assert(s@.take(i + 1).last() == c);
        if c == sep {
            let piece = s.substring_char(start, i);
            pieces.push(piece);
            assert(str_views(pieces@) =~= str_views(before).push(piece@));
            start = i + 1;
            assert(s@.subrange(start as int, start as int) =~= Seq::<char>::empty());
        } else {
            assert(s@.subrange(start as int, i + 1) =~= s@.subrange(start as int, i as int).push(
                c,
            ));
            assert(split_on(s@.take(i + 1), sep) =~= str_views(pieces@).push(
                s@.subrange(start as int, i + 1),
            ));
        }
        i = i + 1;
    }
    let ghost before = pieces@;
    let last = s.substring_char(start, n);
    pieces.push(last);
    assert(str_views(pieces@) =~= str_views(before).push(last@));
    assert(s@.take(n as int) =~= s@);
    pieces
}

/// The non-empty `/`-separated segments of `s`, in order.
pub fn split_segments<'a>(s: &'a str) -> (segs: Vec<&'a str>)
    ensures
        str_views(segs@) == segments(s@),
{
    let pieces = split_pieces(s, '/');
    let mut segs: Vec<&'a str> = Vec::new();
    let mut k: usize = 0;
    assert(str_views(pieces@).take(0) =~= Seq::<Seq<char>>::empty());
    assert(str_views(segs@) =~= Seq::<Seq<char>>::empty());
    while k < pieces.len()
        invariant
            k <= pieces.len(),
            str_views(pieces@) == split_on(s@, '/'),
            str_views(segs@) == drop_empty(str_views(pieces@).take(k as int)),
        decreases pieces.len() - k,
    {
        let p = pieces[k];
        let ghost before = segs@;
        assert(str_views(pieces@).take(k + 1).drop_last() =~= str_views(pieces@).take(k as int));
        assert(str_views(pieces@).take(k + 1).last() == p@);
        if !p.is_empty() {
            segs.push(p);
            assert(str_views(segs@) =~= str_views(before).push(p@));
        }
        k = k + 1;
    }
    assert(str_views(pieces@).take(pieces.len() as int) =~= str_views(pieces@));
    segs
}

/// Whether two strings hold the same characters.
pub fn str_eq(a: &str, b: &str) -> (r: bool)
    ensures
        r == (a@ == b@),
{
    let n = a.unicode_len();
    if n != b.unicode_len() {
        return false;
    }
    let mut i: usize = 0;
    while i < n
        invariant
            n == a@.len(),
            n == b@.len(),
            i <= n,
            forall|j: int| 0 <= j < i ==> a@[j] == b@[j],
        decreases n - i,
    {
        if a.get_char(i) != b.get_char(i) {
            return false;
        }
        i = i + 1;
    }
    assert(a@ =~= b@);
    true
}

/// Whether `s` is non-empty and starts with `c`.
pub fn starts_with_char(s: &str, c: char) -> (r: bool)
    ensures
        r == (s@.len() > 0 && s@[0] == c),
{
    if s.is_empty() {
        false
    } else {
        s.get_char(0) == c
    }
}

/// The code of `c` with ASCII upper-case letters mapped to lower case.
pub open spec fn ascii_lower(c: char) -> u32 {
    let x = c as u32;
    if 65 <= x <= 90 {
        (x + 32) as u32
    } else {
        x
    }
}

/// Equality of two character sequences up to ASCII letter case.
pub open spec fn eq_ignoring_ascii_case(a: Seq<char>, b: Seq<char>) -> bool {
    &&& a.len() == b.len()
    &&& forall|i: int| 0 <= i < a.len() ==> ascii_lower(#[trigger] a[i]) == ascii_lower(b[i])
}

fn lower_code(c: char) -> (r: u32)
    ensures
        r == ascii_lower(c),
{
    let x = c as u32;
    if 65 <= x && x <= 90 {
        x + 32
    } else {
        x
    }
}

/// Whether two strings are equal when ASCII letters are compared without case.
pub fn eq_ignore_ascii_case(a: &str, b: &str) -> (r: bool)
    ensures
        r == eq_ignoring_ascii_case(a@, b@),
{
    let n = a.unicode_len();
    if n != b.unicode_len() {
        return false;
    }
    let mut i: usize = 0;
    while i < n
        invariant
            n == a@.len(),
            n == b@.len(),
            i <= n,
            forall|j: int| 0 <= j < i ==> ascii_lower(#[trigger] a@[j]) == ascii_lower(b@[j]),
        decreases n - i,
    {
        if lower_code(a.get_char(i)) != lower_code(b.get_char(i)) {
            return false;
        }
        i = i + 1;
    }
    true
}

/// The ten decimal digits.
pub open spec fn decimal_digits() -> Seq<char> {
    seq!['0', '1', '2', '3', '4', '5', '6', '7', '8', '9']
}

/// The decimal notation of `n`, without sign or leading zeros.
pub open spec fn decimal(n: nat) -> Seq<char>
    decreases n,
{
    if n < 10 {
        seq![decimal_digits()[n as int]]
    } else {
        decimal(n / 10).push(decimal_digits()[(n % 10) as int])
    }
}

/// The decimal notation of `n`, as `n.to_string()` writes it.
pub fn decimal_string(n: usize) -> (s: String)
    ensures
        s@ == decimal(n as nat),
{
    let digits = "0123456789";
    proof {
        reveal_strlit("0123456789");
        assert(digits@ =~= decimal_digits());
    }
    let mut m: usize = n;
    let mut acc = String::new();
    assert(decimal(n as nat) =~= decimal(m as nat) + acc@);
    while m >= 10
        invariant
            digits@ == decimal_digits(),
            decimal(n as nat) == decimal(m as nat) + acc@,
        decreases m,
    {
        let d = m % 10;
        let piece = String::from_str(digits.substring_char(d, d + 1));
        assert(piece@ =~= seq![decimal_digits()[d as int]]);
        let ghost old_acc = acc@;
        acc = piece.concat(acc.as_str());
        assert(decimal(m as nat) == decimal((m / 10) as nat).push(decimal_digits()[d as int]));
        assert(decimal(m as nat) + old_acc =~= decimal((m / 10) as nat) + acc@);
        m = m / 10;
    }
    let piece = String::from_str(digits.substring_char(m, m + 1));
    assert(piece@ =~= decimal(m as nat));
    piece.concat(acc.as_str())
}

/// Every character of a decimal notation is an ASCII digit, and there is at least one.
pub proof fn lemma_decimal_digits(n: nat)
    ensures
        decimal(n).len() >= 1,
        forall|i: int| 0 <= i < decimal(n).len() ==> is_ascii_digit(#[trigger] decimal(n)[i]),
    decreases n,
{
    if n >= 10 {
        lemma_decimal_digits(n / 10);
        let d = decimal((n / 10) as nat);
        assert forall|i: int| 0 <= i < decimal(n).len() implies is_ascii_digit(
            #[trigger] decimal(n)[i],
        ) by {
            if i < d.len() {
                assert(decimal(n)[i] == d[i]);
            }
        }
    }
}

/// The characters that `char::is_whitespace` accepts: those with the
/// Unicode `White_Space` property.
pub open spec fn is_whitespace(c: char) -> bool {
    let x = c as u32;
    ||| 9 <= x <= 13
    ||| x == 32
    ||| x == 0x85
    ||| x == 0xA0
    ||| x == 0x1680
    ||| 0x2000 <= x <= 0x200A
    ||| x == 0x2028
    ||| x == 0x2029
    ||| x == 0x202F
    ||| x == 0x205F
    ||| x == 0x3000
}

fn char_is_whitespace(c: char) -> (r: bool)
    ensures
        r == is_whitespace(c),
{
    let x = c as u32;
    (9 <= x && x <= 13) || x == 32 || x == 0x85 || x == 0xA0 || x == 0x1680 || (0x2000 <= x && x
        <= 0x200A) || x == 0x2028 || x == 0x2029 || x == 0x202F || x == 0x205F || x == 0x3000
}

/// `s` without its leading whitespace.
pub open spec fn trim_start(s: Seq<char>) -> Seq<char>
    decreases s.len(),
{
    if s.len() > 0 && is_whitespace(s[0]) {
        trim_start(s.drop_first())
    } else {
        s
    }
}

/// `s` without its trailing whitespace.
pub open spec fn trim_end(s: Seq<char>) -> Seq<char>
    decreases s.len(),
{
    if s.len() > 0 && is_whitespace(s.last()) {
        trim_end(s.drop_last())
    } else {
        s
    }
}

/// `s` without leading and trailing whitespace, as `str::trim` returns it.
pub open spec fn trimmed(s: Seq<char>) -> Seq<char> {
    trim_end(trim_start(s))
}

/// Removes leading and trailing whitespace.
pub fn trim<'a>(s: &'a str) -> (r: &'a str)
    ensures
        r@ == trimmed(s@),
{
    let n = s.unicode_len();
    let mut i: usize = 0;
    assert(s@.skip(0) =~= s@);
    while i < n && char_is_whitespace(s.get_char(i))
        invariant
            n == s@.len(),
            i <= n,
            trim_start(s@) == trim_start(s@.skip(i as int)),
        decreases n - i,
    {
        assert(s@.skip(i as int).drop_first() =~= s@.skip(i + 1));
        i = i + 1;
    }
    assert(trim_start(s@.skip(i as int)) == s@.skip(i as int)) by {
        if i < n {
            assert(s@.skip(i as int)[0] == s@[i as int]);
        }
    }
    let mut j: usize = n;
    assert(s@.skip(i as int) =~= s@.subrange(i as int, n as int));
    while j > i && char_is_whitespace(s.get_char(j - 1))
        invariant
            n == s@.len(),
            i <= j <= n,
            trimmed(s@) == trim_end(s@.subrange(i as int, j as int)),
        decreases j,
    {
        assert(s@.subrange(i as int, j as int).drop_last() =~= s@.subrange(i as int, j - 1));
        assert(s@.subrange(i as int, j as int).last() == s@[j - 1]);
        j = j - 1;
    }
    assert(trim_end(s@.subrange(i as int, j as int)) == s@.subrange(i as int, j as int)) by {
        if j > i {
            assert(s@.subrange(i as int, j as int).last() == s@[j - 1]);
        }
    }
    s.substring_char(i, j)
}

/// An ASCII decimal digit.
pub open spec fn is_ascii_digit(c: char) -> bool {
    48 <= c as u32 <= 57
}

/// The number written by a sequence of decimal digits.
pub open spec fn digits_value(s: Seq<char>) -> nat
    decreases s.len(),
{
    if s.len() == 0 {
        0
    } else {
        (digits_value(s.drop_last()) * 10 + (s.last() as u32 - 48)) as nat
    }
}

/// Whether every character of `d` is an ASCII digit.
pub open spec fn all_digits(d: Seq<char>) -> bool {
    forall|i: int| 0 <= i < d.len() ==> is_ascii_digit(#[trigger] d[i])
}

/// `s` without one leading `+`, if it has one.
pub open spec fn without_plus(s: Seq<char>) -> Seq<char> {
    if s.len() > 0 && s[0] == '+' {
        s.drop_first()
    } else {
        s
    }
}

/// `str::parse::<u16>`: an optional `+` followed by at least one ASCII digit,
/// whose value fits in 16 bits.
pub open spec fn parsed_u16(s: Seq<char>) -> Option<u16> {
    let d = without_plus(s);
    if d.len() > 0 && all_digits(d) && digits_value(d) <= 65535 {
        Some(digits_value(d) as u16)
    } else {
        None
    }
}

/// Parses a decimal `u16` as `str::parse::<u16>` does.
pub fn parse_u16(s: &str) -> (r: Option<u16>)
    ensures
        r == parsed_u16(s@),
{
    let n = s.unicode_len();
    if n == 0 {
        return None;
    }
    let start: usize = if s.get_char(0) == '+' {
        1
    } else {
        0
    };
    let ghost d = without_plus(s@);
    assert(d =~= s@.subrange(start as int, n as int));
    if start == n {
        assert(d.len() == 0);
        assert(parsed_u16(s@) is None);
        return None;
    }
    let mut value: u32 = 0;
    let mut overflow = false;
    let mut i: usize = start;
    assert(s@.subrange(start as int, start as int) =~= Seq::<char>::empty());
    while i < n
        invariant
            n == s@.len(),
            start <= i <= n,
            d == s@.subrange(start as int, n as int),
            d == without_plus(s@),
            forall|t: int| start <= t < i ==> is_ascii_digit(#[trigger] s@[t]),
            !overflow ==> value == digits_value(s@.subrange(start as int, i as int)) && value
                <= 65535,
            overflow ==> digits_value(s@.subrange(start as int, i as int)) > 65535,
        decreases n - i,
    {
        let c = s.get_char(i);
        let code = c as u32;
        if code < 48 || code > 57 {
            assert(!is_ascii_digit(d[i - start]));
            return None;
        }
        assert(s@.subrange(start as int, i + 1).drop_last() =~= s@.subrange(
            start as int,
            i as int,
        ));
        assert(s@.subrange(start as int, i + 1).last() == c);
        if !overflow {
            value = value * 10 + (code - 48);
            if value > 65535 {
                overflow = true;
            }
        }
        i = i + 1;
    }
    assert(s@.subrange(start as int, n as int) =~= d);
    assert forall|t: int| 0 <= t < d.len() implies is_ascii_digit(#[trigger] d[t]) by {
        assert(d[t] == s@[t + start]);
    }
    if overflow {
        None
    } else {
        Some(value as u16)
    }
}

/// `s` does not contain `sep`.
pub open spec fn sep_free(s: Seq<char>, sep: char) -> bool {
    forall|j: int| 0 <= j < s.len() ==> #[trigger] s[j] != sep
}

/// The pieces joined with `sep` between consecutive pieces, as `[T]::join` does.
pub open spec fn join_with(parts: Seq<Seq<char>>, sep: char) -> Seq<char>
    decreases parts.len(),
{
    if parts.len() == 0 {
        Seq::empty()
    } else if parts.len() == 1 {
        parts[0]
    } else {
        join_with(parts.drop_last(), sep) + seq![sep] + parts.last()
    }
}

/// Splitting at a separator that joins two texts splits each of them.
pub proof fn lemma_split_on_concat(a: Seq<char>, b: Seq<char>, sep: char)
    ensures
        split_on(a + seq![sep] + b, sep) == split_on(a, sep) + split_on(b, sep),
    decreases b.len(),
{
    let s = a + seq![sep] + b;
    if b.len() == 0 {
        assert(s =~= a.push(sep));
        assert(s.drop_last() =~= a);
        assert(split_on(b, sep) =~= seq![Seq::<char>::empty()]);
        assert(split_on(s, sep) =~= split_on(a, sep) + split_on(b, sep));
    } else {
        assert(s.drop_last() =~= a + seq![sep] + b.drop_last());
        assert(s.last() == b.last());
        lemma_split_on_concat(a, b.drop_last(), sep);
        let x = split_on(a, sep);
        let y = split_on(b.drop_last(), sep);
        lemma_split_on_len(b.drop_last(), sep);
        if b.last() == sep {
            assert(split_on(s, sep) =~= split_on(a, sep) + split_on(b, sep));
        } else {
            let h = x + y;
            assert(h.last() == y.last());
            assert(h.update(h.len() - 1, h.last().push(b.last())) =~= x + y.update(
                y.len() - 1,
                y.last().push(b.last()),
            ));
        }
    }
}

/// A text without the separator is a single piece.
pub proof fn lemma_split_on_sep_free(b: Seq<char>, sep: char)
    requires
        sep_free(b, sep),
    ensures
        split_on(b, sep) == seq![b],
    decreases b.len(),
{
    if b.len() > 0 {
        let d = b.drop_last();
        assert(sep_free(d, sep)) by {
            assert forall|j: int| 0 <= j < d.len() implies #[trigger] d[j] != sep by {
                assert(d[j] == b[j]);
            }
        }
        lemma_split_on_sep_free(d, sep);
        assert(b.last() == b[b.len() - 1]);
        assert(d.push(b.last()) =~= b);
        assert(seq![d].update(0, d.push(b.last())) =~= seq![b]);
    } else {
        assert(b =~= Seq::<char>::empty());
    }
}

/// Splitting joined separator-free pieces gives the pieces back.
pub proof fn lemma_split_join(parts: Seq<Seq<char>>, sep: char)
    requires
        parts.len() >= 1,
        forall|i: int| 0 <= i < parts.len() ==> sep_free(#[trigger] parts[i], sep),
    ensures
        split_on(join_with(parts, sep), sep) == parts,
    decreases parts.len(),
{
    if parts.len() == 1 {
        lemma_split_on_sep_free(parts[0], sep);
        assert(seq![parts[0]] =~= parts);
    } else {
        let init = parts.drop_last();
        assert forall|i: int| 0 <= i < init.len() implies sep_free(#[trigger] init[i], sep) by {
            assert(init[i] == parts[i]);
        }
        lemma_split_join(init, sep);
        lemma_split_on_concat(join_with(init, sep), parts.last(), sep);
        assert(sep_free(parts[parts.len() - 1], sep));
        lemma_split_on_sep_free(parts.last(), sep);
        assert(init + seq![parts.last()] =~= parts);
    }
}

/// Dropping empty pieces distributes over concatenation.
pub proof fn lemma_drop_empty_concat(x: Seq<Seq<char>>, y: Seq<Seq<char>>)
    ensures
        drop_empty(x + y) == drop_empty(x) + drop_empty(y),
    decreases y.len(),
{
    if y.len() == 0 {
        assert(x + y =~= x);
        assert(drop_empty(x) + drop_empty(y) =~= drop_empty(x));
    } else {
        assert((x + y).drop_last() =~= x + y.drop_last());
        assert((x + y).last() == y.last());
        lemma_drop_empty_concat(x, y.drop_last());
        if y.last().len() > 0 {
            assert(drop_empty(x + y) =~= drop_empty(x) + drop_empty(y));
        }
    }
}

/// Non-empty pieces are all kept.
pub proof fn lemma_drop_empty_keeps(ps: Seq<Seq<char>>)
    requires
        forall|i: int| 0 <= i < ps.len() ==> (#[trigger] ps[i]).len() > 0,
    ensures
        drop_empty(ps) == ps,
    decreases ps.len(),
{
    if ps.len() > 0 {
        let d = ps.drop_last();
        assert forall|i: int| 0 <= i < d.len() implies (#[trigger] d[i]).len() > 0 by {
            assert(d[i] == ps[i]);
        }
        lemma_drop_empty_keeps(d);
        assert(ps.last() == ps[ps.len() - 1]);
        assert(d.push(ps.last()) =~= ps);
    }
}

proof fn lemma_split_on_pieces_sep_free(s: Seq<char>, sep: char)
    ensures
        forall|i: int| 0 <= i < split_on(s, sep).len() ==> sep_free(#[trigger] split_on(s, sep)[i], sep),
    decreases s.len(),
{
    if s.len() > 0 {
        lemma_split_on_pieces_sep_free(s.drop_last(), sep);
        lemma_split_on_len(s.drop_last(), sep);
        let h = split_on(s.drop_last(), sep);
        if s.last() != sep {
            let l = h.last().push(s.last());
            assert(sep_free(h[h.len() - 1], sep));
            assert(sep_free(l, sep)) by {
                assert forall|j: int| 0 <= j < l.len() implies #[trigger] l[j] != sep by {
                    if j < l.len() - 1 {
                        assert(l[j] == h[h.len() - 1][j]);
                    }
                }
            }
            assert forall|i: int| 0 <= i < split_on(s, sep).len() implies sep_free(
                #[trigger] split_on(s, sep)[i],
                sep,
            ) by {
                if i < h.len() - 1 {
                    assert(split_on(s, sep)[i] == h[i]);
                }
            }
        } else {
            assert forall|i: int| 0 <= i < split_on(s, sep).len() implies sep_free(
                #[trigger] split_on(s, sep)[i],
                sep,
            ) by {
                if i < h.len() {
                    assert(split_on(s, sep)[i] == h[i]);
                } else {
                    assert(split_on(s, sep)[i] =~= Seq::<char>::empty());
                }
            }
        }
    }
}

proof fn lemma_drop_empty_pieces(ps: Seq<Seq<char>>, sep: char)
    requires
        forall|i: int| 0 <= i < ps.len() ==> sep_free(#[trigger] ps[i], sep),
    ensures
        forall|i: int|
            0 <= i < drop_empty(ps).len() ==> (#[trigger] drop_empty(ps)[i]).len() > 0 && sep_free(
                drop_empty(ps)[i],
                sep,
            ),
    decreases ps.len(),
{
    if ps.len() > 0 {
        let d = ps.drop_last();
        assert forall|i: int| 0 <= i < d.len() implies sep_free(#[trigger] d[i], sep) by {
            assert(d[i] == ps[i]);
        }
        lemma_drop_empty_pieces(d, sep);
        assert(sep_free(ps[ps.len() - 1], sep));
        assert forall|i: int| 0 <= i < drop_empty(ps).len() implies (#[trigger] drop_empty(
            ps,
        )[i]).len() > 0 && sep_free(drop_empty(ps)[i], sep) by {
            if i < drop_empty(d).len() {
                assert(drop_empty(ps)[i] == drop_empty(d)[i]);
            } else {
                assert(drop_empty(ps)[i] == ps.last());
            }
        }
    }
}

/// Every segment is non-empty and holds no `/`.
pub proof fn lemma_segments_wellformed(s: Seq<char>)
    ensures
        forall|i: int|
            0 <= i < segments(s).len() ==> (#[trigger] segments(s)[i]).len() > 0 && sep_free(
                segments(s)[i],
                '/',
            ),
{
    lemma_split_on_pieces_sep_free(s, '/');
    lemma_drop_empty_pieces(split_on(s, '/'), '/');
}

/// The segments of `/` followed by non-empty `/`-free parts joined with `/`
/// are those parts.
pub proof fn lemma_segments_of_joined(parts: Seq<Seq<char>>)
    requires
        forall|i: int| 0 <= i < parts.len() ==> (#[trigger] parts[i]).len() > 0 && sep_free(
            parts[i],
            '/',
        ),
    ensures
        segments(seq!['/'] + join_with(parts, '/')) == parts,
{
    let j = join_with(parts, '/');
    let empty = Seq::<char>::empty();
    assert(seq!['/'] + j =~= empty + seq!['/'] + j);
    lemma_split_on_concat(empty, j, '/');
    assert(split_on(empty, '/') =~= seq![empty]);
    lemma_drop_empty_concat(split_on(empty, '/'), split_on(j, '/'));
    assert(drop_empty(seq![empty]) =~= Seq::<Seq<char>>::empty()) by {
        assert(seq![empty].drop_last() =~= Seq::<Seq<char>>::empty());
        assert(seq![empty].last() == empty);
        assert(drop_empty(Seq::<Seq<char>>::empty()) == Seq::<Seq<char>>::empty());
    }
    if parts.len() == 0 {
        assert(j =~= empty);
        assert(drop_empty(split_on(j, '/')) =~= Seq::<Seq<char>>::empty()) by {
            assert(split_on(empty, '/').drop_last() =~= Seq::<Seq<char>>::empty());
        }
        assert(Seq::<Seq<char>>::empty() + Seq::<Seq<char>>::empty() =~= parts);
    } else {
        lemma_split_join(parts, '/');
        lemma_drop_empty_keeps(parts);
        assert(Seq::<Seq<char>>::empty() + parts =~= parts);
    }
}

} // verus!
