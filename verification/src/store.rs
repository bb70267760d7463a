//! The shortener store: a bidirectional registry of (short code, long URL)
//! bindings. One entry list is the single source of truth; the forward map
//! (code to URL) and the reverse map (URL to code) are two views of it, so
//! the two directions can never drift apart.

use vstd::prelude::*;

use crate::codes;

verus! {

/// Bound on the collision-retry loop of code generation. With 62^5 possible
/// codes a fresh candidate is effectively always found long before this many
/// draws, but a finite cap keeps the operation from spinning near exhaustion.
pub const MAX_CODE_ATTEMPTS: usize = 64;

/// Failure modes of the store.
#[derive(Clone, Copy, Debug, PartialEq, Eq, Structural)]
pub enum StoreError {
    /// A looked-up code is bound to no URL.
    NotFound,
    /// No unused candidate code was found within `MAX_CODE_ATTEMPTS` draws.
    CodeSpaceExhausted,
}

/// One binding: a short code and the long URL it redirects to.
struct Entry {
    code: String,
    url: String,
}

/// The in-memory registry. Entries are only ever appended, never updated in
/// place or removed; both lookup directions read the same list.
pub struct Shortener {
    entries: Vec<Entry>,
}

/// The finite map described by an association list: later pairs shadow
/// earlier ones (irrelevant here, since the store keeps keys distinct).
pub open spec fn assoc_map(ps: Seq<(Seq<char>, Seq<char>)>) -> Map<Seq<char>, Seq<char>>
    decreases ps.len(),
{
    if ps.len() == 0 {
        Map::empty()
    } else {
        assoc_map(ps.drop_last()).insert(ps.last().0, ps.last().1)
    }
}

/// A key is in the association map exactly when some pair carries it.
proof fn lemma_assoc_map_contains(ps: Seq<(Seq<char>, Seq<char>)>, k: Seq<char>)
    ensures
        assoc_map(ps).contains_key(k) <==> exists|i: int| 0 <= i < ps.len() && ps[i].0 == k,
    decreases ps.len(),
{
    if ps.len() > 0 {
        lemma_assoc_map_contains(ps.drop_last(), k);
        if ps.last().0 == k {
            assert(ps[ps.len() - 1].0 == k);
        } else {
            if exists|i: int| 0 <= i < ps.len() && ps[i].0 == k {
                let i = choose|i: int| 0 <= i < ps.len() && ps[i].0 == k;
                assert(ps.drop_last()[i] == ps[i]);
            }
        }
    }
}

/// With distinct keys, the association map sends each pair's key to its value.
proof fn lemma_assoc_map_index(ps: Seq<(Seq<char>, Seq<char>)>, i: int)
    requires
        0 <= i < ps.len(),
        forall|a: int, b: int| 0 <= a < b < ps.len() ==> ps[a].0 != ps[b].0,
    ensures
        assoc_map(ps).contains_key(ps[i].0),
        assoc_map(ps)[ps[i].0] == ps[i].1,
    decreases ps.len(),
{
    if i < ps.len() - 1 {
        lemma_assoc_map_index(ps.drop_last(), i);
        assert(ps.drop_last()[i] == ps[i]);
    }
}

/// With distinct keys the association map is as large as the list.
proof fn lemma_assoc_map_len(ps: Seq<(Seq<char>, Seq<char>)>)
    requires
        forall|a: int, b: int| 0 <= a < b < ps.len() ==> ps[a].0 != ps[b].0,
    ensures
        assoc_map(ps).dom().finite(),
        assoc_map(ps).len() == ps.len(),
    decreases ps.len(),
{
    if ps.len() > 0 {
        lemma_assoc_map_len(ps.drop_last());
        lemma_assoc_map_contains(ps.drop_last(), ps.last().0);
        assert(forall|i: int| 0 <= i < ps.drop_last().len() ==> ps.drop_last()[i] == ps[i]);
    }
}

/// What a successful shorten of URL `u`, returning code `c`, does to the
/// store: the code is valid and bound to `u` in both directions afterwards;
/// if `u` was already registered, the existing code is handed back and
/// nothing changes; if it was not, a fresh code (no live key) is bound and
/// both mappings grow by exactly that one binding, together.
pub open spec fn shorten_post(pre: Shortener, post: Shortener, u: Seq<char>, c: Seq<char>) -> bool {
    &&& codes::valid_code(c)
    &&& post.forward().contains_key(c) && post.forward()[c] == u
    &&& post.reverse().contains_key(u) && post.reverse()[u] == c
    &&& pre.reverse().contains_key(u) ==> c == pre.reverse()[u] && post == pre
    &&& !pre.reverse().contains_key(u) ==> {
        &&& !pre.forward().contains_key(c)
        &&& post.forward() == pre.forward().insert(c, u)
        &&& post.reverse() == pre.reverse().insert(u, c)
    }
}

impl Shortener {
    /// The forward direction as key/value pairs: code to URL.
    pub closed spec fn fwd_pairs(self) -> Seq<(Seq<char>, Seq<char>)> {
        self.entries@.map_values(|e: Entry| (e.code@, e.url@))
    }

    /// The reverse direction as key/value pairs: URL to code.
    pub closed spec fn rev_pairs(self) -> Seq<(Seq<char>, Seq<char>)> {
        self.entries@.map_values(|e: Entry| (e.url@, e.code@))
    }

    /// The forward mapping: short code to long URL.
    pub open spec fn forward(self) -> Map<Seq<char>, Seq<char>> {
        assoc_map(self.fwd_pairs())
    }

    /// The reverse mapping: long URL to short code.
    pub open spec fn reverse(self) -> Map<Seq<char>, Seq<char>> {
        assoc_map(self.rev_pairs())
    }

    /// Well-formedness: codes are distinct and valid, URLs are distinct and
    /// non-empty. Distinctness in both directions is what makes the forward
    /// and reverse maps exact inverses of one another.
    pub closed spec fn wf(self) -> bool {
        &&& forall|a: int, b: int|
            0 <= a < b < self.entries@.len()
                ==> self.entries@[a].code@ != self.entries@[b].code@
        &&& forall|a: int, b: int|
            0 <= a < b < self.entries@.len()
                ==> self.entries@[a].url@ != self.entries@[b].url@
        &&& forall|i: int|
            0 <= i < self.entries@.len() ==> codes::valid_code(#[trigger] self.entries@[i].code@)
        &&& forall|i: int|
            0 <= i < self.entries@.len() ==> (#[trigger] self.entries@[i].url@).len() > 0
    }

    /// Index of the entry bound to `url`, if any.
    fn find_by_url(&self, url: &String) -> (r: Option<usize>)
        ensures
            match r {
                Some(i) => i < self.entries@.len() && self.entries@[i as int].url@ == url@,
                None => forall|i: int|
                    0 <= i < self.entries@.len() ==> (#[trigger] self.entries@[i].url@) != url@,
            },
    {
        let mut i: usize = 0;
        while i < self.entries.len()
            invariant
                i <= self.entries@.len(),
                forall|j: int| 0 <= j < i ==> (#[trigger] self.entries@[j].url@) != url@,
            decreases self.entries@.len() - i,
        {
            if self.entries[i].url == *url {
                return Some(i);
            }
            i = i + 1;
        }
        None
    }

    /// Index of the entry carrying `code`, if any.
    fn find_by_code(&self, code: &String) -> (r: Option<usize>)
        ensures
            match r {
                Some(i) => i < self.entries@.len() && self.entries@[i as int].code@ == code@,
                None => forall|i: int|
                    0 <= i < self.entries@.len() ==> (#[trigger] self.entries@[i].code@) != code@,
            },
    {
        let mut i: usize = 0;
        while i < self.entries.len()
            invariant
                i <= self.entries@.len(),
                forall|j: int| 0 <= j < i ==> (#[trigger] self.entries@[j].code@) != code@,
            decreases self.entries@.len() - i,
        {
            if self.entries[i].code == *code {
                return Some(i);
            }
            i = i + 1;
        }
        None
    }

    /// Look a short code up in the forward mapping. Returns the bound long
    /// URL, or `NotFound` exactly when the code was never issued. Accepts any
    /// string: an ill-shaped code is simply not a key.
    pub fn resolve(&self, code: &String) -> (r: Result<String, StoreError>)
        requires
            self.wf(),
        ensures
            match r {
                Ok(url) => self.forward().contains_key(code@) && url@ == self.forward()[code@],
                Err(e) => e == StoreError::NotFound && !self.forward().contains_key(code@),
            },
    {
        proof {
            lemma_assoc_map_contains(self.fwd_pairs(), code@);
        }
        match self.find_by_code(code) {
            Some(i) => {
                proof {
                    lemma_assoc_map_index(self.fwd_pairs(), i as int);
                }
                Ok(self.entries[i].url.clone())
            },
            None => Err(StoreError::NotFound),
        }
    }

    /// Number of bindings held (each one entry in the forward and one in the
    /// reverse mapping).
    pub fn entry_count(&self) -> (r: usize)
        requires
            self.wf(),
        ensures
            r as nat == self.forward().len(),
            r as nat == self.reverse().len(),
    {
        proof {
            lemma_assoc_map_len(self.fwd_pairs());
            lemma_assoc_map_len(self.rev_pairs());
        }
        self.entries.len()
    }

    /// Bind `code` to `url` if `code` is not yet a forward key; report
    /// whether the binding happened. The insert is conditional ("insert only
    /// if absent"), so a candidate that raced into the map between generation
    /// and insertion can never overwrite a live binding. Both directions are
    /// updated in one step: no caller ever observes one map without the
    /// other.
    pub fn try_insert_code(&mut self, code: String, url: &String) -> (r: bool)
        requires
            old(self).wf(),
            url@.len() > 0,
            codes::valid_code(code@),
            !old(self).reverse().contains_key(url@),
        ensures
            final(self).wf(),
            r == !old(self).forward().contains_key(code@),
            r ==> shorten_post(*old(self), *final(self), url@, code@),
            !r ==> *final(self) == *old(self),
    {
        proof {
            lemma_assoc_map_contains(self.fwd_pairs(), code@);
            lemma_assoc_map_contains(self.rev_pairs(), url@);
        }
        match self.find_by_code(&code) {
            Some(i) => {
                proof {
                    assert(self.fwd_pairs()[i as int].0 == code@);
                }
                false
            },
            None => {
                let ghost pre = *self;
                self.entries.push(Entry { code, url: url.clone() });
                proof {
                    let e = self.entries@.last();
                    assert forall|i: int| 0 <= i < pre.entries@.len() implies (
                    #[trigger] pre.entries@[i].url@) != url@ by {
                        assert(pre.rev_pairs()[i].0 == pre.entries@[i].url@);
                    }
                    assert(self.fwd_pairs() =~= pre.fwd_pairs().push((e.code@, e.url@)));
                    assert(self.rev_pairs() =~= pre.rev_pairs().push((e.url@, e.code@)));
                    assert(self.fwd_pairs().drop_last() =~= pre.fwd_pairs());
                    assert(self.rev_pairs().drop_last() =~= pre.rev_pairs());
                    assert(self.forward() == pre.forward().insert(e.code@, e.url@));
                    assert(self.reverse() == pre.reverse().insert(e.url@, e.code@));
                }
                true
            },
        }
    }

    /// Resolve a long URL to its short code, allocating one if none exists
    /// yet. A URL that was already shortened gets its existing code back and
    /// the store is left untouched; a new URL gets a freshly drawn code that
    /// collides with no live key. `CodeSpaceExhausted` is returned, with the
    /// store untouched, only if `MAX_CODE_ATTEMPTS` random candidates in a
    /// row were already taken.
    pub fn get_or_create_short_code(&mut self, url: &String) -> (r: Result<
        String,
        StoreError,
    >)
        requires
            old(self).wf(),
            url@.len() > 0,
        ensures
            final(self).wf(),
            match r {
                Ok(code) => shorten_post(*old(self), *final(self), url@, code@),
                Err(e) => {
                    &&& e == StoreError::CodeSpaceExhausted
                    &&& !old(self).reverse().contains_key(url@)
                    &&& *final(self) == *old(self)
                },
            },
    {
        match self.find_by_url(url) {
            Some(i) => {
                proof {
                    lemma_assoc_map_index(self.fwd_pairs(), i as int);
                    lemma_assoc_map_index(self.rev_pairs(), i as int);
                }
                Ok(self.entries[i].code.clone())
            },
            None => {
                proof {
                    lemma_assoc_map_contains(self.rev_pairs(), url@);
                    assert forall|i: int| 0 <= i < self.rev_pairs().len() implies (
                    #[trigger] self.rev_pairs()[i]).0 != url@ by {
                        assert(self.rev_pairs()[i].0 == self.entries@[i].url@);
                    }
                }
                let mut attempt: usize = 0;
                while attempt < MAX_CODE_ATTEMPTS
                    invariant
                        *self == *old(self),
                        old(self).wf(),
                        url@.len() > 0,
                        !old(self).reverse().contains_key(url@),
                    decreases MAX_CODE_ATTEMPTS - attempt,
                {
                    let cand = codes::make_short_name();
                    if self.try_insert_code(cand.clone(), url) {
                        return Ok(cand);
                    }
                    attempt = attempt + 1;
                }
                Err(StoreError::CodeSpaceExhausted)
            },
        }
    }

    /// A fresh store holds no binding in either direction.
    pub fn new() -> (s: Shortener)
        ensures
            s.wf(),
            s.forward() == Map::<Seq<char>, Seq<char>>::empty(),
            s.reverse() == Map::<Seq<char>, Seq<char>>::empty(),
    {
        Shortener { entries: Vec::new() }
    }
}

/// The two directions of a well-formed store are exact inverses: the URL a
/// code forwards to maps back to that code, and the code a URL reverses to
/// forwards back to that URL.
pub proof fn lemma_maps_inverse(s: Shortener)
    requires
        s.wf(),
    ensures
        forall|c: Seq<char>| #[trigger]
            s.forward().contains_key(c) ==> s.reverse().contains_key(s.forward()[c])
                && s.reverse()[s.forward()[c]] == c,
        forall|u: Seq<char>| #[trigger]
            s.reverse().contains_key(u) ==> s.forward().contains_key(s.reverse()[u])
                && s.forward()[s.reverse()[u]] == u,
{
    assert forall|c: Seq<char>| #[trigger]
        s.forward().contains_key(c) implies s.reverse().contains_key(s.forward()[c])
        && s.reverse()[s.forward()[c]] == c by {
        lemma_assoc_map_contains(s.fwd_pairs(), c);
        let i = choose|i: int| 0 <= i < s.fwd_pairs().len() && s.fwd_pairs()[i].0 == c;
        lemma_assoc_map_index(s.fwd_pairs(), i);
        lemma_assoc_map_index(s.rev_pairs(), i);
    }
    assert forall|u: Seq<char>| #[trigger]
        s.reverse().contains_key(u) implies s.forward().contains_key(s.reverse()[u])
        && s.forward()[s.reverse()[u]] == u by {
        lemma_assoc_map_contains(s.rev_pairs(), u);
        let i = choose|i: int| 0 <= i < s.rev_pairs().len() && s.rev_pairs()[i].0 == u;
        lemma_assoc_map_index(s.rev_pairs(), i);
        lemma_assoc_map_index(s.fwd_pairs(), i);
    }
}

/// Format: every code held by a well-formed store, so in particular every
/// code a shorten ever handed out, is five alphanumeric characters.
pub proof fn lemma_forward_keys_valid(s: Shortener)
    requires
        s.wf(),
    ensures
        forall|c: Seq<char>| #[trigger] s.forward().contains_key(c) ==> codes::valid_code(c),
{
    assert forall|c: Seq<char>| #[trigger]
        s.forward().contains_key(c) implies codes::valid_code(c) by {
        lemma_assoc_map_contains(s.fwd_pairs(), c);
        let i = choose|i: int| 0 <= i < s.fwd_pairs().len() && s.fwd_pairs()[i].0 == c;
        assert(s.fwd_pairs()[i].0 == s.entries@[i].code@);
    }
}

/// Idempotence: shortening the same URL a second time hands back the code
/// of the first time and changes nothing, and the store holds exactly one
/// forward binding for that URL.
pub proof fn lemma_shorten_idempotent(
    s0: Shortener,
    s1: Shortener,
    s2: Shortener,
    u: Seq<char>,
    c1: Seq<char>,
    c2: Seq<char>,
)
    requires
        s0.wf(),
        s1.wf(),
        shorten_post(s0, s1, u, c1),
        shorten_post(s1, s2, u, c2),
    ensures
        c2 == c1,
        s2 == s1,
        forall|c: Seq<char>|
            s1.forward().contains_key(c) && #[trigger] s1.forward()[c] == u ==> c == c1,
{
    lemma_maps_inverse(s1);
    assert forall|c: Seq<char>|
        s1.forward().contains_key(c) && #[trigger] s1.forward()[c] == u implies c == c1 by {
        assert(s1.reverse()[s1.forward()[c]] == c);
    }
}

/// Round trip: after a successful shorten of `u` returning `c`, the forward
/// mapping sends `c` to `u`, so resolving `c` yields `u` again.
pub proof fn lemma_round_trip(s0: Shortener, s1: Shortener, u: Seq<char>, c: Seq<char>)
    requires
        s0.wf(),
        shorten_post(s0, s1, u, c),
    ensures
        s1.forward().contains_key(c),
        s1.forward()[c] == u,
{
}

/// Uniqueness: two distinct shortened URLs never share a short code.
pub proof fn lemma_codes_distinct(s: Shortener, u1: Seq<char>, u2: Seq<char>)
    requires
        s.wf(),
        u1 != u2,
        s.reverse().contains_key(u1),
        s.reverse().contains_key(u2),
    ensures
        s.reverse()[u1] != s.reverse()[u2],
{
    lemma_maps_inverse(s);
}

} // verus!
