//! Byte-level text utilities shared by the parser, router and serializer:
//! ASCII literals, whitespace trimming, case-insensitive comparison, byte
//! searching, and decimal rendering/parsing.

use vstd::prelude::*;

verus! {

/// The bytes of an ASCII character sequence, one byte per character.
pub open spec fn ascii(s: Seq<char>) -> Seq<u8> {
    Seq::new(s.len(), |i: int| s[i] as u8)
}

/// Copies the bytes of an ASCII string slice into a fresh vector.
pub fn lit(s: &str) -> (v: Vec<u8>)
    requires
        vstd::string::is_ascii(s),
    ensures
        v@ == ascii(s@),
{
    proof {
        broadcast use vstd::string::is_ascii_spec_bytes;

    }
    s.as_bytes_vec()
}

/// ASCII whitespace, the bytes that `str::trim` removes from ASCII text.
pub open spec fn is_ws(b: u8) -> bool {
    b == 9 || b == 10 || b == 11 || b == 12 || b == 13 || b == 32
}

/// ASCII decimal digit.
pub open spec fn is_digit(b: u8) -> bool {
    48 <= b <= 57
}

/// ASCII lower-casing of one byte.
pub open spec fn lower(b: u8) -> u8 {
    if 65 <= b <= 90 {
        (b + 32) as u8
    } else {
        b
    }
}

pub open spec fn lower_seq(s: Seq<u8>) -> Seq<u8> {
    s.map_values(|b: u8| lower(b))
}

/// Byte equality up to ASCII case, as `str::eq_ignore_ascii_case` compares.
pub open spec fn ci_eq(a: Seq<u8>, b: Seq<u8>) -> bool {
    lower_seq(a) == lower_seq(b)
}

pub open spec fn eq_p(c: u8) -> spec_fn(u8) -> bool {
    |b: u8| b == c
}

pub open spec fn ws_p() -> spec_fn(u8) -> bool {
    |b: u8| is_ws(b)
}

pub open spec fn non_ws_p() -> spec_fn(u8) -> bool {
    |b: u8| !is_ws(b)
}

pub open spec fn is_brace(b: u8) -> bool {
    b == 123 || b == 125
}

pub open spec fn non_brace_p() -> spec_fn(u8) -> bool {
    |b: u8| !is_brace(b)
}

/// Index of the first byte at or after `i` that satisfies `p`, or `s.len()`.
pub open spec fn find_if(s: Seq<u8>, i: int, p: spec_fn(u8) -> bool) -> int
    decreases s.len() - i,
{
    if i >= s.len() {
        s.len() as int
    } else if p(s[i]) {
        i
    } else {
        find_if(s, i + 1, p)
    }
}

/// One past the index of the last byte satisfying `p`, or `0` if none does.
pub open spec fn rfind_end(s: Seq<u8>, p: spec_fn(u8) -> bool) -> int
    decreases s.len(),
{
    if s.len() == 0 {
        0
    } else if p(s.last()) {
        s.len() as int
    } else {
        rfind_end(s.drop_last(), p)
    }
}

pub proof fn lemma_find_if(s: Seq<u8>, i: int, p: spec_fn(u8) -> bool)
    requires
        0 <= i <= s.len(),
    ensures
        i <= find_if(s, i, p) <= s.len(),
        forall|k: int| i <= k < find_if(s, i, p) ==> !p(s[k]),
        find_if(s, i, p) < s.len() ==> p(s[find_if(s, i, p)]),
    decreases s.len() - i,
{
    if i < s.len() && !p(s[i]) {
        lemma_find_if(s, i + 1, p);
    }
}

pub proof fn lemma_find_if_ge(s: Seq<u8>, i: int, p: spec_fn(u8) -> bool)
    requires
        i <= s.len(),
    ensures
        i <= find_if(s, i, p) <= s.len(),
    decreases s.len() - i,
{
    if i < s.len() && !p(s[i]) {
        lemma_find_if_ge(s, i + 1, p);
    }
}

/// A vector of bytes looks the same through `deep_view` and `view`.
pub broadcast proof fn lemma_vec_u8_deep_view(v: Vec<u8>)
    ensures
        #[trigger] v.deep_view() == v@,
{
    assert(v.deep_view() =~= v@);
}

pub proof fn lemma_find_if_is(s: Seq<u8>, i: int, j: int, p: spec_fn(u8) -> bool)
    requires
        0 <= i <= j <= s.len(),
        forall|k: int| i <= k < j ==> !p(s[k]),
        j < s.len() ==> p(s[j]),
    ensures
        find_if(s, i, p) == j,
    decreases j - i,
{
    if i < j {
        lemma_find_if_is(s, i + 1, j, p);
    }
}

pub proof fn lemma_rfind_end(s: Seq<u8>, p: spec_fn(u8) -> bool)
    ensures
        0 <= rfind_end(s, p) <= s.len(),
        forall|k: int| rfind_end(s, p) <= k < s.len() ==> !p(s[k]),
        rfind_end(s, p) > 0 ==> p(s[rfind_end(s, p) - 1]),
    decreases s.len(),
{
    if s.len() > 0 && !p(s.last()) {
        lemma_rfind_end(s.drop_last(), p);
        assert forall|k: int| rfind_end(s, p) <= k < s.len() implies !p(s[k]) by {
            if k < s.len() - 1 {
                assert(s[k] == s.drop_last()[k]);
            } else {
                assert(s[k] == s.last());
            }
        }
        if rfind_end(s, p) > 0 {
            assert(s[rfind_end(s, p) - 1] == s.drop_last()[rfind_end(s, p) - 1]);
        }
    }
}

pub proof fn lemma_rfind_end_is(s: Seq<u8>, j: int, p: spec_fn(u8) -> bool)
    requires
        0 <= j <= s.len(),
        forall|k: int| j <= k < s.len() ==> !p(s[k]),
        j > 0 ==> p(s[j - 1]),
    ensures
        rfind_end(s, p) == j,
    decreases s.len(),
{
    if s.len() > 0 && !p(s.last()) {
        assert(j < s.len()) by {
            if j == s.len() {
                assert(p(s[j - 1]));
            }
        }
        assert forall|k: int| j <= k < s.drop_last().len() implies !p(s.drop_last()[k]) by {
            assert(s.drop_last()[k] == s[k]);
        }
        if j > 0 {
            assert(s.drop_last()[j - 1] == s[j - 1]);
        }
        lemma_rfind_end_is(s.drop_last(), j, p);
    }
}

/// Index of the first line feed at or after `i`, or `s.len()`: the exclusive
/// end of the line that starts at `i`.
pub open spec fn line_end(s: Seq<u8>, i: int) -> int {
    find_if(s, i, eq_p(10))
}

/// Index of the first non-whitespace byte at or after `i`, or `s.len()`.
pub open spec fn skip_ws(s: Seq<u8>, i: int) -> int {
    find_if(s, i, non_ws_p())
}

/// Index of the first whitespace byte at or after `i`, or `s.len()`.
pub open spec fn ws_or_end(s: Seq<u8>, i: int) -> int {
    find_if(s, i, ws_p())
}

pub open spec fn colon_at(s: Seq<u8>, i: int) -> int {
    find_if(s, i, eq_p(58))
}

pub open spec fn sp_at(s: Seq<u8>, i: int) -> int {
    find_if(s, i, eq_p(32))
}

pub open spec fn comma_at(s: Seq<u8>, i: int) -> int {
    find_if(s, i, eq_p(44))
}

pub open spec fn slash_at(s: Seq<u8>, i: int) -> int {
    find_if(s, i, eq_p(47))
}

/// What `str::trim` leaves of `s`: the bytes between the first and the last
/// non-whitespace byte.
pub open spec fn trim(s: Seq<u8>) -> Seq<u8> {
    let a = skip_ws(s, 0);
    let z = rfind_end(s, non_ws_p());
    if a >= z {
        Seq::empty()
    } else {
        s.subrange(a, z)
    }
}

/// Neither starts nor ends with whitespace.
pub open spec fn is_trimmed(s: Seq<u8>) -> bool {
    s.len() == 0 || (!is_ws(s[0]) && !is_ws(s.last()))
}

pub proof fn lemma_trim_id(s: Seq<u8>)
    requires
        is_trimmed(s),
    ensures
        trim(s) == s,
{
    if s.len() == 0 {
        lemma_rfind_end(s, non_ws_p());
        assert(trim(s) =~= s);
    } else {
        lemma_find_if_is(s, 0, 0, non_ws_p());
        lemma_rfind_end_is(s, s.len() as int, non_ws_p());
        assert(trim(s) =~= s);
    }
}

pub proof fn lemma_trim_pad(l: Seq<u8>, v: Seq<u8>, r: Seq<u8>)
    requires
        forall|k: int| 0 <= k < l.len() ==> is_ws(l[k]),
        forall|k: int| 0 <= k < r.len() ==> is_ws(r[k]),
        is_trimmed(v),
    ensures
        trim(l + v + r) == v,
{
    let s = l + v + r;
    if v.len() == 0 {
        assert(forall|k: int| 0 <= k < s.len() ==> is_ws(s[k]));
        lemma_find_if_is(s, 0, s.len() as int, non_ws_p());
        lemma_rfind_end_is(s, 0, non_ws_p());
        assert(trim(s) =~= v);
    } else {
        assert(s[l.len() as int] == v[0]);
        lemma_find_if_is(s, 0, l.len() as int, non_ws_p());
        assert(s[l.len() + v.len() - 1] == v.last());
        lemma_rfind_end_is(s, l.len() + v.len() as int, non_ws_p());
        assert(trim(s) =~= v);
    }
}

/// `s` begins with `p`.
pub open spec fn starts_with(s: Seq<u8>, p: Seq<u8>) -> bool {
    s.len() >= p.len() && s.take(p.len() as int) == p
}

/// What `str::trim_start_matches` leaves of `s`: every leading copy of `p`
/// removed in turn.
pub open spec fn strip_prefix_rep(s: Seq<u8>, p: Seq<u8>) -> Seq<u8>
    decreases s.len(),
{
    if p.len() > 0 && starts_with(s, p) {
        strip_prefix_rep(s.skip(p.len() as int), p)
    } else {
        s
    }
}

/// The decimal digits of `n`, most significant first, as `format!` writes
/// an unsigned integer.
pub open spec fn dec(n: nat) -> Seq<u8>
    decreases n,
{
    if n < 10 {
        seq![(48 + n) as u8]
    } else {
        dec(n / 10).push((48 + n % 10) as u8)
    }
}

pub open spec fn all_digits(s: Seq<u8>) -> bool {
    forall|i: int| 0 <= i < s.len() ==> is_digit(s[i])
}

/// The value of a digit string, most significant digit first.
pub open spec fn dec_val(s: Seq<u8>) -> nat
    decreases s.len(),
{
    if s.len() == 0 {
        0
    } else {
        dec_val(s.drop_last()) * 10 + (if s.last() >= 48 {
            (s.last() - 48) as nat
        } else {
            0
        })
    }
}

pub proof fn lemma_dec_digits(n: nat)
    ensures
        dec(n).len() >= 1,
        all_digits(dec(n)),
        dec_val(dec(n)) == n,
    decreases n,
{
    if n < 10 {
        let d = dec(n);
        assert(d == seq![(48 + n) as u8]);
        assert(d.drop_last() =~= Seq::<u8>::empty());
        assert(d.last() == (48 + n) as u8);
        assert((48 + n) as u8 as nat == 48 + n);
        assert(dec_val(Seq::<u8>::empty()) == 0);
        assert(dec_val(d) == n);
    } else {
        lemma_dec_digits(n / 10);
        let d = dec(n);
        let dd = dec(n / 10);
        assert(d == dd.push((48 + n % 10) as u8));
        assert(d.drop_last() =~= dd);
        assert(d.last() == (48 + n % 10) as u8);
        assert(dec_val(d) == dec_val(dd) * 10 + n % 10);
        assert(dec_val(dd) == n / 10);
        assert(n / 10 * 10 + n % 10 == n);
        assert forall|i: int| 0 <= i < d.len() implies is_digit(d[i]) by {
            if i < d.len() - 1 {
                assert(d[i] == dd[i]);
            } else {
                assert(d[i] == d.last());
            }
        }
    }
}

/// The value of a digit string never falls when digits are appended.
pub proof fn lemma_dec_val_prefix(d: Seq<u8>, j: int)
    requires
        0 <= j <= d.len(),
        all_digits(d),
    ensures
        dec_val(d.take(j)) <= dec_val(d),
    decreases d.len() - j,
{
    if j < d.len() {
        assert(d.take(j + 1).drop_last() =~= d.take(j));
        assert(dec_val(d.take(j + 1)) >= dec_val(d.take(j)));
        lemma_dec_val_prefix(d, j + 1);
        assert(d.take(d.len() as int) =~= d);
    } else {
        assert(d.take(j) =~= d);
    }
}

/// The digits of `s` once an optional leading `+` sign is removed, the shape
/// `usize::from_str` accepts.
pub open spec fn digits_part(s: Seq<u8>) -> Seq<u8> {
    if s.len() > 0 && s[0] == 43 {
        s.drop_first()
    } else {
        s
    }
}

/// `s` parses as a `usize`, as `str::parse::<usize>` decides.
pub open spec fn parses_as_usize(s: Seq<u8>) -> bool {
    let d = digits_part(s);
    d.len() > 0 && all_digits(d) && dec_val(d) <= usize::MAX
}

pub open spec fn usize_val(s: Seq<u8>) -> nat {
    dec_val(digits_part(s))
}

fn is_ws_byte(b: u8) -> (r: bool)
    ensures
        r == is_ws(b),
{
    b == 9 || b == 10 || b == 11 || b == 12 || b == 13 || b == 32
}

fn lower_byte(b: u8) -> (r: u8)
    ensures
        r == lower(b),
{
    if 65 <= b && b <= 90 {
        b + 32
    } else {
        b
    }
}

/// Index of the first occurrence of `c` in `s` at or after `from`, or `s.len()`.
pub fn find_byte(s: &[u8], from: usize, c: u8) -> (r: usize)
    requires
        from <= s@.len(),
    ensures
        r == find_if(s@, from as int, eq_p(c)),
        from <= r <= s@.len(),
{
    let n = s.len();
    let mut i = from;
    while i < n && s[i] != c
        invariant
            from <= i <= n,
            n == s@.len(),
            forall|k: int| from <= k < i ==> s@[k] != c,
        decreases n - i,
    {
        i += 1;
    }
    proof {
        lemma_find_if_is(s@, from as int, i as int, eq_p(c));
    }
    i
}

/// Index of the first whitespace byte at or after `from`, or `s.len()`.
pub fn find_ws(s: &[u8], from: usize) -> (r: usize)
    requires
        from <= s@.len(),
    ensures
        r == ws_or_end(s@, from as int),
        from <= r <= s@.len(),
{
    let n = s.len();
    let mut i = from;
    while i < n && !(s[i] == 9 || s[i] == 10 || s[i] == 11 || s[i] == 12 || s[i] == 13 || s[i]
        == 32)
        invariant
            from <= i <= n,
            n == s@.len(),
            forall|k: int| from <= k < i ==> !is_ws(s@[k]),
        decreases n - i,
    {
        i += 1;
    }
    proof {
        lemma_find_if_is(s@, from as int, i as int, ws_p());
    }
    i
}

/// Index of the first non-whitespace byte at or after `from`, or `s.len()`.
pub fn find_non_ws(s: &[u8], from: usize) -> (r: usize)
    requires
        from <= s@.len(),
    ensures
        r == skip_ws(s@, from as int),
        from <= r <= s@.len(),
{
    let n = s.len();
    let mut i = from;
    while i < n && (s[i] == 9 || s[i] == 10 || s[i] == 11 || s[i] == 12 || s[i] == 13 || s[i]
        == 32)
        invariant
            from <= i <= n,
            n == s@.len(),
            forall|k: int| from <= k < i ==> is_ws(s@[k]),
        decreases n - i,
    {
        i += 1;
    }
    proof {
        lemma_find_if_is(s@, from as int, i as int, non_ws_p());
    }
    i
}

/// The whitespace-trimmed copy of `s`.
pub fn trim_slice(s: &[u8]) -> (v: Vec<u8>)
    ensures
        v@ == trim(s@),
{
    let a = find_non_ws(s, 0);
    let mut z = s.len();
    while z > 0 && (s[z - 1] == 9 || s[z - 1] == 10 || s[z - 1] == 11 || s[z - 1] == 12 || s[z - 1]
        == 13 || s[z - 1] == 32)
        invariant
            0 <= z <= s@.len(),
            forall|k: int| z <= k < s@.len() ==> is_ws(s@[k]),
        decreases z,
    {
        z -= 1;
    }
    proof {
        lemma_rfind_end_is(s@, z as int, non_ws_p());
    }
    if a >= z {
        Vec::new()
    } else {
        vstd::slice::slice_to_vec(&s[a..z])
    }
}

/// The copy of `s` with every leading and trailing `{` or `}` removed, as
/// `str::trim_matches` strips them.
pub fn trim_braces(s: &[u8]) -> (v: Vec<u8>)
    ensures
        v@ == trim_braces_spec(s@),
{
    let n = s.len();
    let mut a: usize = 0;
    while a < n && (s[a] == 123 || s[a] == 125)
        invariant
            0 <= a <= n,
            n == s@.len(),
            forall|k: int| 0 <= k < a ==> is_brace(s@[k]),
        decreases n - a,
    {
        a += 1;
    }
    proof {
        lemma_find_if_is(s@, 0, a as int, non_brace_p());
    }
    let mut z = n;
    while z > 0 && (s[z - 1] == 123 || s[z - 1] == 125)
        invariant
            0 <= z <= n,
            n == s@.len(),
            forall|k: int| z <= k < s@.len() ==> is_brace(s@[k]),
        decreases z,
    {
        z -= 1;
    }
    proof {
        lemma_rfind_end_is(s@, z as int, non_brace_p());
    }
    if a >= z {
        Vec::new()
    } else {
        vstd::slice::slice_to_vec(&s[a..z])
    }
}

/// The part of `s` between the first and the last byte that is not `{` or `}`.
pub open spec fn trim_braces_spec(s: Seq<u8>) -> Seq<u8> {
    let a = find_if(s, 0, non_brace_p());
    let z = rfind_end(s, non_brace_p());
    if a >= z {
        Seq::empty()
    } else {
        s.subrange(a, z)
    }
}

/// Plain byte equality of two slices.
pub fn bytes_eq(a: &[u8], b: &[u8]) -> (r: bool)
    ensures
        r == (a@ == b@),
{
    if a.len() != b.len() {
        return false;
    }
    let n = a.len();
    let mut i: usize = 0;
    while i < n
        invariant
            0 <= i <= n,
            n == a@.len() == b@.len(),
            forall|k: int| 0 <= k < i ==> a@[k] == b@[k],
        decreases n - i,
    {
        if a[i] != b[i] {
            return false;
        }
        i += 1;
    }
    proof {
        assert(a@ =~= b@);
    }
    true
}

/// Byte equality of two slices up to ASCII case.
pub fn eq_ignore_case(a: &[u8], b: &[u8]) -> (r: bool)
    ensures
        r == ci_eq(a@, b@),
{
    if a.len() != b.len() {
        assert(lower_seq(a@).len() != lower_seq(b@).len());
        return false;
    }
    let n = a.len();
    let mut i: usize = 0;
    while i < n
        invariant
            0 <= i <= n,
            n == a@.len() == b@.len(),
            forall|k: int| 0 <= k < i ==> lower(a@[k]) == lower(b@[k]),
        decreases n - i,
    {
        if lower_byte(a[i]) != lower_byte(b[i]) {
            assert(lower_seq(a@)[i as int] != lower_seq(b@)[i as int]);
            return false;
        }
        i += 1;
    }
    proof {
        assert(lower_seq(a@) =~= lower_seq(b@));
    }
    true
}

/// Whether `s` begins with `p`.
pub fn starts_with_bytes(s: &[u8], p: &[u8]) -> (r: bool)
    ensures
        r == starts_with(s@, p@),
{
    if p.len() > s.len() {
        return false;
    }
    let r = bytes_eq(&s[0..p.len()], p);
    proof {
        assert(s@.subrange(0, p@.len() as int) == s@.take(p@.len() as int));
    }
    r
}

/// The copy of `s` with every leading copy of `p` removed in turn.
pub fn strip_prefix_rep_vec(s: &[u8], p: &[u8]) -> (v: Vec<u8>)
    ensures
        v@ == strip_prefix_rep(s@, p@),
    decreases s@.len(),
{
    if p.len() > 0 && starts_with_bytes(s, p) {
        strip_prefix_rep_vec(&s[p.len()..s.len()], p)
    } else {
        vstd::slice::slice_to_vec(s)
    }
}

/// The decimal rendering of `n`.
pub fn format_usize(n: usize) -> (v: Vec<u8>)
    ensures
        v@ == dec(n as nat),
    decreases n,
{
    if n < 10 {
        let mut v = Vec::new();
        v.push(48 + (n as u8));
        proof {
            assert(v@ =~= dec(n as nat));
        }
        v
    } else {
        let mut v = format_usize(n / 10);
        v.push(48 + ((n % 10) as u8));
        v
    }
}

/// Parses `s` as `str::parse::<usize>` does: an optional `+`, then decimal
/// digits, rejecting overflow.
pub fn parse_usize(s: &[u8]) -> (r: Option<usize>)
    ensures
        match r {
            Some(n) => parses_as_usize(s@) && n as nat == usize_val(s@),
            None => !parses_as_usize(s@),
        },
{
    let n = s.len();
    let start: usize = if n > 0 && s[0] == 43 {
        1
    } else {
        0
    };
    proof {
        assert(digits_part(s@) =~= s@.subrange(start as int, n as int));
    }
    if start == n {
        return None;
    }
    let mut acc: usize = 0;
    let mut i = start;
    while i < n
        invariant
            start <= i <= n,
            n == s@.len(),
            start == 1 <==> (s@.len() > 0 && s@[0] == 43),
            start <= 1,
            digits_part(s@) == s@.subrange(start as int, n as int),
            all_digits(s@.subrange(start as int, i as int)),
            acc as nat == dec_val(s@.subrange(start as int, i as int)),
        decreases n - i,
    {
        let b = s[i];
        if !(48 <= b && b <= 57) {
            assert(!is_digit(digits_part(s@)[i - start]));
            return None;
        }
        let d = (b - 48) as usize;
        let next = match acc.checked_mul(10) {
            Some(x) => x.checked_add(d),
            None => None,
        };
        proof {
            assert(s@.subrange(start as int, i + 1).drop_last() =~= s@.subrange(
                start as int,
                i as int,
            ));
            assert(s@.subrange(start as int, i + 1).last() == s@[i as int]);
        }
        match next {
            Some(x) => {
                acc = x;
            },
            None => {
                proof {
                    let dp = digits_part(s@);
                    if all_digits(dp) {
                        assert(dec_val(dp.take(i + 1 - start)) > usize::MAX) by {
                            assert(dp.take(i + 1 - start) =~= s@.subrange(start as int, i + 1));
                        }
                        lemma_dec_val_prefix(dp, i + 1 - start);
                    }
                }
                return None;
            },
        }
        i += 1;
    }
    proof {
        assert(s@.subrange(start as int, n as int) =~= digits_part(s@));
    }
    Some(acc)
}

/// `s` is a plain run of decimal digits whose value fits in a `u16`.
pub open spec fn parses_as_u16(s: Seq<u8>) -> bool {
    s.len() > 0 && all_digits(s) && dec_val(s) <= u16::MAX
}

/// Parses an unsigned decimal digit run into a `u16`, with no sign accepted.
pub fn parse_u16_digits(s: &[u8]) -> (r: Option<u16>)
    ensures
        match r {
            Some(n) => parses_as_u16(s@) && n as nat == dec_val(s@),
            None => !parses_as_u16(s@),
        },
{
    let n = s.len();
    if n == 0 {
        return None;
    }
    let mut acc: usize = 0;
    let mut i: usize = 0;
    while i < n
        invariant
            0 <= i <= n,
            n == s@.len(),
            all_digits(s@.subrange(0, i as int)),
            acc as nat == dec_val(s@.subrange(0, i as int)),
            acc <= u16::MAX,
        decreases n - i,
    {
        let b = s[i];
        if !(48 <= b && b <= 57) {
            return None;
        }
        let d = (b - 48) as usize;
        let next = acc * 10 + d;
        proof {
            assert(s@.subrange(0, i + 1).drop_last() =~= s@.subrange(0, i as int));
            assert(s@.subrange(0, i + 1).last() == s@[i as int]);
        }
        if next > 65535 {
            proof {
                if all_digits(s@) {
                    assert(s@.take(i + 1) =~= s@.subrange(0, i + 1));
                    lemma_dec_val_prefix(s@, i + 1);
                }
            }
            return None;
        }
        acc = next;
        i += 1;
    }
    proof {
        assert(s@.subrange(0, n as int) =~= s@);
    }
    Some(acc as u16)
}

} // verus!

