use vstd::prelude::*;
use vstd::string::StringExecFns;
use vstd::string::StrSliceExecFns;

verus! {

pub open spec fn is_digit(c: char) -> bool {
    '0' <= c && c <= '9'
}

pub open spec fn digit_value(c: char) -> nat {
    ((c as u32) - ('0' as u32)) as nat
}

/// The number that a run of decimal digits spells.
pub open spec fn digits_value(s: Seq<char>) -> nat
    decreases s.len(),
{
    if s.len() == 0 {
        0
    } else {
        digits_value(s.drop_last()) * 10 + digit_value(s.last())
    }
}

pub open spec fn all_digits(s: Seq<char>) -> bool {
    forall|i: int| 0 <= i < s.len() ==> is_digit(#[trigger] s[i])
}

/// The digits of a part: what follows a leading `+`, if there is one.
pub open spec fn unsigned_body(s: Seq<char>) -> Seq<char> {
    if s.len() > 0 && s[0] == '+' {
        s.drop_first()
    } else {
        s
    }
}

/// What `u8::from_str` reads: an optional `+`, then one or more decimal
/// digits spelling at most 255.
pub open spec fn octet_of(s: Seq<char>) -> Option<u8> {
    if unsigned_body(s).len() > 0 && all_digits(unsigned_body(s)) && digits_value(unsigned_body(s))
        <= 255 {
        Some(digits_value(unsigned_body(s)) as u8)
    } else {
        None
    }
}

/// The parts of `s` between dots, read from left to right.
pub open spec fn split_dots(s: Seq<char>) -> Seq<Seq<char>>
    decreases s.len(),
{
    if s.len() == 0 {
        seq![Seq::empty()]
    } else if s.last() == '.' {
        split_dots(s.drop_last()).push(Seq::empty())
    } else {
        let p = split_dots(s.drop_last());
        p.update(p.len() - 1, p.last().push(s.last()))
    }
}

pub open spec fn part_error(part: Seq<char>) -> Seq<char> {
    "Failed to parse IP part :"@ + part
}

/// The octets of the parts in order, or the error for the first part that is
/// not one.
pub open spec fn octets_of(parts: Seq<Seq<char>>) -> Result<Seq<u8>, Seq<char>>
    decreases parts.len(),
{
    if parts.len() == 0 {
        Ok(Seq::empty())
    } else {
        match octets_of(parts.drop_last()) {
            Err(e) => Err(e),
            Ok(v) => match octet_of(parts.last()) {
                Some(o) => Ok(v.push(o)),
                None => Err(part_error(parts.last())),
            },
        }
    }
}

/// Reads one part as an octet, the way `u8::from_str` does.
fn parse_octet(s: &str) -> (r: Option<u8>)
    ensures
        r == octet_of(s@),
{
    let n = s.unicode_len();
    let start: usize = if n > 0 && s.get_char(0) == '+' {
        1
    } else {
        0
    };
    let ghost body = unsigned_body(s@);
    assert(body =~= s@.subrange(start as int, n as int));
    if start == n {
        return None;
    }
    let mut v: u32 = 0;
    let mut k: usize = start;
    while k < n
        invariant
            start <= k <= n,
            n == s@.len(),
            body == s@.subrange(start as int, n as int),
            body == unsigned_body(s@),
            forall|i: int| start <= i < k ==> is_digit(#[trigger] s@[i]),
            v == if digits_value(s@.subrange(start as int, k as int)) < 256 {
                digits_value(s@.subrange(start as int, k as int))
            } else {
                256
            },
        decreases n - k,
    {
        let c = s.get_char(k);
        if !('0' <= c && c <= '9') {
            assert(body[k - start] == c);
            assert(!is_digit(body[k - start]));
            assert(!all_digits(body));
            return None;
        }
        let ghost prev = s@.subrange(start as int, k as int);
        let ghost next = s@.subrange(start as int, k + 1);
        assert(next.drop_last() =~= prev);
        let d = (c as u32) - ('0' as u32);
        if v >= 256 {
            v = 256;
        } else {
            v = v * 10 + d;
            if v > 256 {
                v = 256;
            }
        }
        k = k + 1;
    }
    assert(s@.subrange(start as int, n as int) =~= body);
    if v > 255 {
        None
    } else {
        Some(v as u8)
    }
}

/// The dot-separated octets of an address, or an error that names the first
/// part that is not an octet.
pub fn split_ip(ip: &String) -> (r: Result<Vec<u8>, String>)
    ensures
        match r {
            Ok(v) => octets_of(split_dots(ip@)) == Ok::<Seq<u8>, Seq<char>>(v@),
            Err(e) => octets_of(split_dots(ip@)) == Err::<Seq<u8>, Seq<char>>(e@),
        },
{
    let s = ip.as_str();
    let n = s.unicode_len();
    let mut acc: Result<Vec<u8>, String> = Ok(Vec::new());
    let ghost mut parts: Seq<Seq<char>> = Seq::empty();
    let mut from: usize = 0;
    let mut i: usize = 0;
    assert(s@.take(0) =~= Seq::<char>::empty());
    assert(s@.subrange(0, 0) =~= Seq::<char>::empty());
    assert(parts.push(s@.subrange(0, 0)) =~= seq![Seq::<char>::empty()]);
    while i < n
        invariant
            from <= i <= n,
            n == s@.len(),
            split_dots(s@.take(i as int)) == parts.push(s@.subrange(from as int, i as int)),
            part_result(acc) == octets_of(parts),
        decreases n - i,
    {
        if s.get_char(i) == '.' {
            let piece = s.substring_char(from, i);
            let ghost whole = parts.push(piece@);
            assert(whole.drop_last() =~= parts);
            acc = add_part(acc, piece);
            proof {
                parts = whole;
            }
            let ghost t = s@.take(i + 1);
            assert(t.drop_last() =~= s@.take(i as int));
            assert(s@.subrange(i + 1, i + 1) =~= Seq::<char>::empty());
            from = i + 1;
        } else {
            let ghost t = s@.take(i + 1);
            assert(t.drop_last() =~= s@.take(i as int));
            assert(s@.subrange(from as int, i + 1) =~= s@.subrange(from as int, i as int).push(
                s@[i as int],
            ));
        }
        i = i + 1;
    }
    let piece = s.substring_char(from, n);
    let ghost whole = parts.push(piece@);
    assert(whole.drop_last() =~= parts);
    assert(s@.take(n as int) =~= s@);
    add_part(acc, piece)
}

pub open spec fn part_result(r: Result<Vec<u8>, String>) -> Result<Seq<u8>, Seq<char>> {
    match r {
        Ok(v) => Ok(v@),
        Err(e) => Err(e@),
    }
}

/// Adds the octet that `piece` spells to the octets read so far, keeping the
/// first error.
fn add_part(acc: Result<Vec<u8>, String>, piece: &str) -> (r: Result<Vec<u8>, String>)
    ensures
        part_result(r) == match part_result(acc) {
            Err(e) => Err(e),
            Ok(v) => match octet_of(piece@) {
                Some(o) => Ok(v.push(o)),
                None => Err(part_error(piece@)),
            },
        },
{
    match acc {
        Err(e) => Err(e),
        Ok(mut v) => match parse_octet(piece) {
            Some(o) => {
                v.push(o);
                Ok(v)
            },
            None => {
                proof {
                    reveal_strlit("Failed to parse IP part :");
                }
                let mut e = String::from_str("Failed to parse IP part :");
                e.append(piece);
                Err(e)
            },
        },
    }
}

/// Adds a key to an address octet by octet, modulo 256.
pub fn add_octets(ip: &Vec<u8>, key: &Vec<u8>) -> (r: Vec<u8>)
    ensures
        r@.len() == if ip@.len() <= key@.len() { ip@.len() } else { key@.len() },
        forall|i: int| 0 <= i < r@.len() ==> r@[i] == (ip@[i] + key@[i]) % 256,
{
    let n = if ip.len() <= key.len() { ip.len() } else { key.len() };
    let mut r: Vec<u8> = Vec::new();
    let mut i: usize = 0;
    while i < n
        invariant
            i <= n,
            n <= ip@.len(),
            n <= key@.len(),
            r@.len() == i,
            forall|j: int| 0 <= j < i ==> r@[j] == (ip@[j] + key@[j]) % 256,
        decreases n - i,
    {
        r.push(((ip[i] as u16 + key[i] as u16) % 256) as u8);
        i = i + 1;
    }
    r
}

/// The key that leads from `from` to `to`, octet by octet, modulo 256.
pub fn sub_octets(from: &Vec<u8>, to: &Vec<u8>) -> (r: Vec<u8>)
    ensures
        r@.len() == if from@.len() <= to@.len() { from@.len() } else { to@.len() },
        forall|i: int| 0 <= i < r@.len() ==> (from@[i] + r@[i]) % 256 == to@[i] as int,
{
    let n = if from.len() <= to.len() { from.len() } else { to.len() };
    let mut r: Vec<u8> = Vec::new();
    let mut i: usize = 0;
    while i < n
        invariant
            i <= n,
            n <= from@.len(),
            n <= to@.len(),
            r@.len() == i,
            forall|j: int| 0 <= j < i ==> (from@[j] + r@[j]) % 256 == to@[j] as int,
        decreases n - i,
    {
        r.push(((to[i] as u16 + 256 - from[i] as u16) % 256) as u8);
        i = i + 1;
    }
    r
}

} // verus!
