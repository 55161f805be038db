//! Header names, header values, and the header merger.
//!
//! A [`Headers`] value is a finite map from header names to header values.
//! Names are kept in canonical (lowercase) form, as the `http` crate
//! normalizes them; values are arbitrary strings whose bytes the `http` crate
//! accepts in a header value. The view of a [`Headers`] value is a
//! `Map<Seq<char>, Seq<char>>` from canonical names to values.

use vstd::prelude::*;

verus! {

/// The characters accepted in a header name: the HTTP token characters.
/// Uppercase letters are accepted on input and normalized to lowercase.
pub open spec fn is_header_name_char(c: char) -> bool {
    ||| c == '!' || c == '#' || c == '$' || c == '%' || c == '&' || c == '\'' || c == '*'
        || c == '+' || c == '-' || c == '.' || c == '^' || c == '_' || c == '`' || c == '|'
        || c == '~'
    ||| '0' <= c && c <= '9'
    ||| 'a' <= c && c <= 'z'
    ||| 'A' <= c && c <= 'Z'
}

/// A syntactically valid header name: nonempty, at most 65535 characters,
/// token characters only. These are exactly the names that
/// `http::HeaderName::from_bytes` accepts.
pub open spec fn valid_header_name(s: Seq<char>) -> bool {
    &&& 1 <= s.len() <= 65535
    &&& forall|i: int| 0 <= i < s.len() ==> is_header_name_char(#[trigger] s[i])
}

/// Lowercases an ASCII uppercase letter and leaves every other character as
/// it is: the normalization `http::HeaderName` applies to each name character.
pub open spec fn lower_char(c: char) -> char {
    if 'A' <= c && c <= 'Z' {
        ((c as u32) + 32) as char
    } else {
        c
    }
}

/// The canonical (lowercase) form of a header name.
pub open spec fn lower(s: Seq<char>) -> Seq<char> {
    s.map_values(|c: char| lower_char(c))
}

/// A header name as it is stored: valid and already lowercase.
pub open spec fn is_canonical_name(s: Seq<char>) -> bool {
    &&& valid_header_name(s)
    &&& forall|i: int| 0 <= i < s.len() ==> !('A' <= #[trigger] s[i] && s[i] <= 'Z')
}

/// The characters accepted in a header value: horizontal tab and every
/// character other than the C0 controls and delete. Characters at 128 and
/// above are accepted, since every byte of their encoding is 128 or above.
pub open spec fn is_header_value_char(c: char) -> bool {
    c == '\t' || (32 <= c as u32 && c as u32 != 127)
}

/// A syntactically valid header value: exactly the strings that
/// `http::HeaderValue::from_str` accepts.
pub open spec fn valid_header_value(s: Seq<char>) -> bool {
    forall|i: int| 0 <= i < s.len() ==> is_header_value_char(#[trigger] s[i])
}

/// Lowercasing a valid header name yields a canonical name.
pub proof fn lemma_lower_canonical(s: Seq<char>)
    requires
        valid_header_name(s),
    ensures
        is_canonical_name(lower(s)),
{
    assert forall|i: int| 0 <= i < lower(s).len() implies is_header_name_char(#[trigger] lower(
        s,
    )[i]) && !('A' <= lower(s)[i] && lower(s)[i] <= 'Z') by {
        assert(lower(s)[i] == lower_char(s[i]));
        assert(is_header_name_char(s[i]));
        if 'A' <= s[i] && s[i] <= 'Z' {
            assert('a' <= lower_char(s[i]) && lower_char(s[i]) <= 'z');
        }
    }
}

/// The pairwise-distinct-keys discipline of an entry list.
pub open spec fn distinct_keys(entries: Seq<(String, String)>) -> bool {
    forall|i: int, j: int|
        0 <= i < j < entries.len() ==> (#[trigger] entries[i]).0@ != (#[trigger] entries[j]).0@
}

/// Every stored entry holds a canonical name and a valid value.
pub open spec fn entries_valid(entries: Seq<(String, String)>) -> bool {
    forall|i: int|
        0 <= i < entries.len() ==> is_canonical_name((#[trigger] entries[i]).0@)
            && valid_header_value(entries[i].1@)
}

/// The map an entry list denotes; later entries win on a repeated key.
pub open spec fn map_of(entries: Seq<(String, String)>) -> Map<Seq<char>, Seq<char>>
    decreases entries.len(),
{
    if entries.len() == 0 {
        Map::empty()
    } else {
        map_of(entries.drop_last()).insert(entries.last().0@, entries.last().1@)
    }
}

/// A set of request headers: a finite map from canonical header names to
/// header values.
#[derive(Clone)]
pub struct Headers {
    entries: Vec<(String, String)>,
}

impl View for Headers {
    type V = Map<Seq<char>, Seq<char>>;

    closed spec fn view(&self) -> Map<Seq<char>, Seq<char>> {
        map_of(self.entries@)
    }
}

proof fn lemma_map_of_contains(entries: Seq<(String, String)>, k: Seq<char>)
    ensures
        map_of(entries).contains_key(k) <==> (exists|i: int|
            0 <= i < entries.len() && (#[trigger] entries[i]).0@ == k),
    decreases entries.len(),
{
    if entries.len() == 0 {
    } else {
        let prefix = entries.drop_last();
        lemma_map_of_contains(prefix, k);
        if entries.last().0@ == k {
            assert(entries[entries.len() - 1].0@ == k);
        } else if map_of(entries).contains_key(k) {
            let i = choose|i: int| 0 <= i < prefix.len() && (#[trigger] prefix[i]).0@ == k;
            assert(entries[i].0@ == k);
        } else {
            assert forall|i: int| 0 <= i < entries.len() implies (#[trigger] entries[i]).0@ != k by {
                if i < entries.len() - 1 {
                    assert(prefix[i] == entries[i]);
                }
            }
        }
    }
}

proof fn lemma_map_of_index(entries: Seq<(String, String)>, i: int)
    requires
        distinct_keys(entries),
        0 <= i < entries.len(),
    ensures
        map_of(entries).contains_key(entries[i].0@),
        map_of(entries)[entries[i].0@] == entries[i].1@,
    decreases entries.len(),
{
    let prefix = entries.drop_last();
    if i == entries.len() - 1 {
    } else {
        assert(prefix[i] == entries[i]);
        lemma_map_of_index(prefix, i);
        assert(entries.last().0@ != entries[i].0@);
    }
}

proof fn lemma_map_of_update(entries: Seq<(String, String)>, j: int, p: (String, String))
    requires
        distinct_keys(entries),
        0 <= j < entries.len(),
        p.0@ == entries[j].0@,
    ensures
        map_of(entries.update(j, p)) == map_of(entries).insert(p.0@, p.1@),
    decreases entries.len(),
{
    let updated = entries.update(j, p);
    let prefix = entries.drop_last();
    if j == entries.len() - 1 {
        assert(updated.drop_last() =~= prefix);
        assert(map_of(entries).insert(p.0@, p.1@) =~= map_of(prefix).insert(p.0@, p.1@));
    } else {
        assert(updated.drop_last() =~= prefix.update(j, p));
        assert(prefix[j] == entries[j]);
        lemma_map_of_update(prefix, j, p);
        assert(entries.last().0@ != p.0@);
        assert(map_of(prefix).insert(p.0@, p.1@).insert(entries.last().0@, entries.last().1@)
            =~= map_of(prefix).insert(entries.last().0@, entries.last().1@).insert(p.0@, p.1@));
        assert(updated.last() == entries.last());
    }
}

impl Headers {
    /// The well-formedness discipline of a header set: distinct canonical
    /// names and valid values.
    pub closed spec fn wf(&self) -> bool {
        &&& distinct_keys(self.entries@)
        &&& entries_valid(self.entries@)
    }

    /// The empty header set.
    pub fn new() -> (h: Headers)
        ensures
            h.wf(),
            h@ == Map::<Seq<char>, Seq<char>>::empty(),
    {
        Headers { entries: Vec::new() }
    }

    /// Binds `name` to `value`, overwriting any present binding of `name`.
    pub fn insert(&mut self, name: String, value: String)
        requires
            old(self).wf(),
            is_canonical_name(name@),
            valid_header_value(value@),
        ensures
            final(self).wf(),
            final(self)@ == old(self)@.insert(name@, value@),
    {
        let n: usize = self.entries.len();
        let mut j: usize = 0;
        while j < n
            invariant
                *self == *old(self),
                self.wf(),
                is_canonical_name(name@),
                valid_header_value(value@),
                n == self.entries@.len(),
                j <= n,
                forall|i: int| 0 <= i < j ==> (#[trigger] self.entries@[i]).0@ != name@,
            decreases n - j,
        {
            if self.entries[j].0 == name {
                let ghost e0 = self.entries@;
                let ghost p = (name, value);
                self.entries[j] = (name, value);
                proof {
                    assert(self.entries@ =~= e0.update(j as int, p));
                    lemma_map_of_update(e0, j as int, p);
                    assert forall|a: int, b: int|
                        0 <= a < b < self.entries@.len() implies (#[trigger] self.entries@[a]).0@
                        != (#[trigger] self.entries@[b]).0@ by {
                        assert(e0[a].0@ != e0[b].0@);
                    }
                    assert forall|a: int|
                        0 <= a < self.entries@.len() implies is_canonical_name(
                        (#[trigger] self.entries@[a]).0@,
                    ) && valid_header_value(self.entries@[a].1@) by {
                        if a != j {
                            assert(self.entries@[a] == e0[a]);
                        }
                    }
                }
                return ;
            }
            j += 1;
        }
        let ghost e0 = self.entries@;
        let ghost p = (name, value);
        self.entries.push((name, value));
        proof {
            assert(self.entries@.drop_last() =~= e0);
            assert(self.entries@.last() == p);
        }
    }

    /// Looks a name up; `None` exactly when the name is unbound.
    pub fn get<'a>(&'a self, name: &String) -> (r: Option<&'a String>)
        requires
            self.wf(),
        ensures
            match r {
                Some(v) => self@.contains_key(name@) && v@ == self@[name@],
                None => !self@.contains_key(name@),
            },
    {
        let n: usize = self.entries.len();
        let mut j: usize = 0;
        while j < n
            invariant
                n == self.entries@.len(),
                j <= n,
                self.wf(),
                forall|i: int| 0 <= i < j ==> (#[trigger] self.entries@[i]).0@ != name@,
            decreases n - j,
        {
            if self.entries[j].0 == *name {
                proof {
                    lemma_map_of_index(self.entries@, j as int);
                }
                return Some(&self.entries[j].1);
            }
            j += 1;
        }
        proof {
            lemma_map_of_contains(self.entries@, name@);
        }
        None
    }
}

/// Merges the two header sources under the trust ordering: the result binds
/// every name bound by either source, and wherever both bind a name, the
/// handshake value is the one kept.
pub fn merge(payload: Headers, handshake: &Headers) -> (r: Headers)
    requires
        payload.wf(),
        handshake.wf(),
    ensures
        r.wf(),
        r@ == payload@.union_prefer_right(handshake@),
{
    let ghost p0 = payload@;
    let mut out = payload;
    let n: usize = handshake.entries.len();
    let mut j: usize = 0;
    proof {
        assert(handshake.entries@.take(0) =~= Seq::<(String, String)>::empty());
        assert(p0.union_prefer_right(Map::empty()) =~= p0);
    }
    while j < n
        invariant
            n == handshake.entries@.len(),
            j <= n,
            handshake.wf(),
            out.wf(),
            out@ == p0.union_prefer_right(map_of(handshake.entries@.take(j as int))),
        decreases n - j,
    {
        let name = handshake.entries[j].0.clone();
        let value = handshake.entries[j].1.clone();
        let ghost taken = handshake.entries@.take(j as int);
        out.insert(name, value);
        proof {
            let stepped = handshake.entries@.take(j as int + 1);
            assert(stepped.drop_last() =~= taken);
            assert(stepped.last() == handshake.entries@[j as int]);
            assert(p0.union_prefer_right(map_of(taken)).insert(
                handshake.entries@[j as int].0@,
                handshake.entries@[j as int].1@,
            ) =~= p0.union_prefer_right(map_of(stepped)));
        }
        j += 1;
    }
    proof {
        assert(handshake.entries@.take(n as int) =~= handshake.entries@);
    }
    out
}

/// Relies on `http::HeaderName::from_bytes`: it accepts exactly the nonempty
/// token-character names of at most 65535 bytes, and returns the name with
/// every uppercase letter normalized to lowercase.
#[verifier::external_body]
pub(crate) fn parse_header_name(s: &String) -> (r: Option<String>)
    ensures
        r is Some <==> valid_header_name(s@),
        r matches Some(n) ==> n@ == lower(s@),
{
    match http::HeaderName::from_bytes(s.as_bytes()) {
        Ok(n) => Some(n.as_str().to_string()),
        Err(_) => None,
    }
}

/// Relies on `http::HeaderValue::from_str`: it accepts exactly the strings
/// whose bytes are horizontal tab or at least 32 and not delete.
#[verifier::external_body]
pub(crate) fn header_value_ok(s: &String) -> (r: bool)
    ensures
        r <==> valid_header_value(s@),
{
    http::HeaderValue::from_str(s.as_str()).is_ok()
}

} // verus!
