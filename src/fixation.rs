use vstd::prelude::*;

verus! {

/// The word-length boundaries of each reading profile; a fixation point
/// past the last profile selects profile 0.
pub open spec fn profile_spec(fixation_point: nat) -> Seq<u8> {
    if fixation_point == 1 {
        seq![1u8, 2, 7, 10, 13, 14, 19, 22, 25, 28, 31, 34, 37, 40, 43, 46, 49]
    } else if fixation_point == 2 {
        seq![
            1u8, 2, 5, 7, 9, 11, 13, 15, 17, 19, 21, 23, 25, 27, 29, 31, 33, 35, 37, 39, 41, 43,
            45, 47, 49,
        ]
    } else if fixation_point == 3 {
        seq![
            0u8, 2, 4, 5, 6, 8, 9, 11, 14, 15, 17, 18, 20, 0, 21, 23, 24, 26, 27, 29, 30, 32, 33,
            35, 36, 38, 39, 41, 42, 44, 45, 47, 48,
        ]
    } else if fixation_point == 4 {
        seq![
            0u8, 2, 3, 5, 6, 7, 8, 10, 11, 12, 14, 15, 17, 19, 20, 21, 23, 24, 25, 26, 28, 29, 30,
            32, 33, 34, 35, 37, 38, 39, 41, 42, 43, 44, 46, 47, 48,
        ]
    } else {
        seq![0u8, 4, 12, 17, 24, 29, 35, 42, 48]
    }
}

/// First position at or after `i` whose boundary is at least `n`, or -1.
pub open spec fn first_boundary_from(b: Seq<u8>, n: nat, i: int) -> int
    decreases b.len() - i,
{
    if i < 0 || i >= b.len() {
        -1
    } else if n <= b[i] {
        i
    } else {
        first_boundary_from(b, n, i + 1)
    }
}

pub open spec fn saturating_sub(a: nat, b: nat) -> nat {
    if a >= b {
        (a - b) as nat
    } else {
        0
    }
}

/// How many leading characters of a word of `n` characters are emphasized
/// under the given fixation point.
pub open spec fn fixation_length(n: nat, fixation_point: nat) -> nat {
    let b = profile_spec(fixation_point);
    let p = first_boundary_from(b, n, 0);
    let k: nat = if p >= 0 {
        p as nat
    } else {
        saturating_sub(n, b.len())
    };
    saturating_sub(n, k)
}

/// The boundaries of the profile selected by `fixation_point`.
fn profile(fixation_point: usize) -> (r: Vec<u8>)
    ensures
        r@ == profile_spec(fixation_point as nat),
{
    let r = if fixation_point == 1 {
        vec![1u8, 2, 7, 10, 13, 14, 19, 22, 25, 28, 31, 34, 37, 40, 43, 46, 49]
    } else if fixation_point == 2 {
        vec![
            1u8, 2, 5, 7, 9, 11, 13, 15, 17, 19, 21, 23, 25, 27, 29, 31, 33, 35, 37, 39, 41, 43,
            45, 47, 49,
        ]
    } else if fixation_point == 3 {
        vec![
            0u8, 2, 4, 5, 6, 8, 9, 11, 14, 15, 17, 18, 20, 0, 21, 23, 24, 26, 27, 29, 30, 32, 33,
            35, 36, 38, 39, 41, 42, 44, 45, 47, 48,
        ]
    } else if fixation_point == 4 {
        vec![
            0u8, 2, 3, 5, 6, 7, 8, 10, 11, 12, 14, 15, 17, 19, 20, 21, 23, 24, 25, 26, 28, 29, 30,
            32, 33, 34, 35, 37, 38, 39, 41, 42, 43, 44, 46, 47, 48,
        ]
    } else {
        vec![0u8, 4, 12, 17, 24, 29, 35, 42, 48]
    };
    proof {
        assert(r@ =~= profile_spec(fixation_point as nat));
    }
    r
}

/// Fixation length of a word of `word_length` characters.
pub fn fixation_for_length(word_length: usize, fixation_point: usize) -> (r: usize)
    ensures
        r == fixation_length(word_length as nat, fixation_point as nat),
{
    let boundary = profile(fixation_point);
    let ghost b = boundary@;
    let mut i: usize = 0;
    while i < boundary.len() && word_length > boundary[i] as usize
        invariant
            b == boundary@,
            b == profile_spec(fixation_point as nat),
            i <= b.len(),
            first_boundary_from(b, word_length as nat, 0) == first_boundary_from(
                b,
                word_length as nat,
                i as int,
            ),
        decreases b.len() - i,
    {
        i = i + 1;
    }
    let from_last = if i < boundary.len() {
        i
    } else {
        word_length.saturating_sub(boundary.len())
    };
    word_length.saturating_sub(from_last)
}

/// Fixation length of `word`, counted in characters.
pub fn calculate_fixation(word: &str, fixation_point: usize) -> (r: usize)
    ensures
        r == fixation_length(word@.len(), fixation_point as nat),
        r <= word@.len(),
{
    let word_length = word.unicode_len();
    proof {
        lemma_fixation_bounded(word_length as nat, fixation_point as nat);
    }
    fixation_for_length(word_length, fixation_point)
}

/// No word has more characters emphasized than it holds, and an empty
/// word has none.
pub proof fn lemma_fixation_bounded(n: nat, fixation_point: nat)
    ensures
        fixation_length(n, fixation_point) <= n,
        fixation_length(0, fixation_point) == 0,
{
}

} // verus!

verus! {

/// Whether two strings hold the same characters.
pub fn same_text(a: &str, b: &str) -> (r: bool)
    ensures
        r == (a@ == b@),
{
    let n = a.unicode_len();
    if n != b.unicode_len() {
        return false;
    }
    let mut i: usize = 0;
    while i < n
        invariant
            n == a@.len(),
            n == b@.len(),
            i <= n,
            a@.subrange(0, i as int) == b@.subrange(0, i as int),
        decreases n - i,
    {
        if a.get_char(i) != b.get_char(i) {
            return false;
        }
        assert(a@.subrange(0, i + 1) =~= a@.subrange(0, i as int).push(a@[i as int]));
        assert(b@.subrange(0, i + 1) =~= b@.subrange(0, i as int).push(b@[i as int]));
        i = i + 1;
    }
    assert(a@ =~= a@.subrange(0, n as int));
    assert(b@ =~= b@.subrange(0, n as int));
    true
}

/// Memoized fixation lengths, keyed by the word's characters alone.
///
/// The entries are kept as a vector of pairs with unique keys rather than
/// in a `HashMap<String, usize>`: the verifier's model of a hash map keyed
/// by `String` does not let a lookup by key be proved, while a linear scan
/// with a character-wise comparison is proved against the map `self@`.
/// A lookup costs time linear in the number of distinct words seen.
pub struct FixationCache {
    entries: Vec<(String, usize)>,
    model: Ghost<Map<Seq<char>, nat>>,
}

impl View for FixationCache {
    type V = Map<Seq<char>, nat>;

    closed spec fn view(&self) -> Map<Seq<char>, nat> {
        self.model@
    }
}

impl FixationCache {
    /// Keys are unique, the entries and the map agree, and no stored length
    /// exceeds the length of its word.
    pub closed spec fn wf(&self) -> bool {
        &&& forall|i: int|
            0 <= i < self.entries@.len() ==> #[trigger] self.model@.contains_key(
                self.entries@[i].0@,
            ) && self.model@[self.entries@[i].0@] == self.entries@[i].1
        &&& forall|k: Seq<char>|
            #[trigger] self.model@.contains_key(k) ==> exists|i: int|
                0 <= i < self.entries@.len() && #[trigger] self.entries@[i].0@ == k
        &&& forall|i: int, j: int|
            0 <= i < j < self.entries@.len() ==> #[trigger] self.entries@[i].0@
                != #[trigger] self.entries@[j].0@
        &&& forall|k: Seq<char>| #[trigger]
            self.model@.contains_key(k) ==> self.model@[k] <= k.len()
    }

    /// No stored length exceeds the length of its word.
    pub proof fn lemma_bounded(&self)
        requires
            self.wf(),
        ensures
            forall|k: Seq<char>| #[trigger] self@.contains_key(k) ==> self@[k] <= k.len(),
    {
    }

    /// An empty cache.
    pub fn new() -> (r: FixationCache)
        ensures
            r.wf(),
            r@ == Map::<Seq<char>, nat>::empty(),
    {
        FixationCache { entries: Vec::new(), model: Ghost(Map::empty()) }
    }

    /// Stored fixation length of `word`, if any.
    pub fn lookup(&self, word: &str) -> (r: Option<usize>)
        requires
            self.wf(),
        ensures
            r is Some <==> self@.contains_key(word@),
            r matches Some(v) ==> v == self@[word@],
    {
        let mut i: usize = 0;
        while i < self.entries.len()
            invariant
                self.wf(),
                i <= self.entries@.len(),
                forall|j: int| 0 <= j < i ==> self.entries@[j].0@ != word@,
            decreases self.entries@.len() - i,
        {
            if same_text(self.entries[i].0.as_str(), word) {
                assert(self.model@.contains_key(self.entries@[i as int].0@));
                return Some(self.entries[i].1);
            }
            i = i + 1;
        }
        None
    }

    /// Records `length` as the fixation length of a word not yet stored.
    fn insert(&mut self, word: &str, length: usize)
        requires
            old(self).wf(),
            !old(self)@.contains_key(word@),
            length <= word@.len(),
        ensures
            final(self).wf(),
            final(self)@ == old(self)@.insert(word@, length as nat),
    {
        let key = String::from_str(word);
        let ghost old_entries = self.entries@;
        self.entries.push((key, length));
        self.model = Ghost(self.model@.insert(word@, length as nat));
        proof {
            assert forall|k: Seq<char>| #[trigger] self.model@.contains_key(k) implies exists|
                i: int,
            |
                0 <= i < self.entries@.len() && #[trigger] self.entries@[i].0@ == k by {
                if k == word@ {
                    assert(self.entries@[old_entries.len() as int].0@ == k);
                } else {
                    assert(old(self).model@.contains_key(k));
                    let i = choose|i: int|
                        0 <= i < old_entries.len() && #[trigger] old_entries[i].0@ == k;
                    assert(self.entries@[i].0@ == k);
                }
            }
            assert forall|i: int, j: int|
                0 <= i < j < self.entries@.len() implies #[trigger] self.entries@[i].0@
                != #[trigger] self.entries@[j].0@ by {
                if j == old_entries.len() {
                    assert(old(self).model@.contains_key(old_entries[i].0@));
                } else {
                    assert(old_entries[i].0@ != old_entries[j].0@);
                }
            }
        }
    }
}

/// Fixation length of `word`: the stored value when the word was seen
/// before, otherwise computed under `fixation_point` and stored.
pub fn get_fixation(cache: &mut FixationCache, word: &str, fixation_point: usize) -> (r: usize)
    requires
        old(cache).wf(),
    ensures
        final(cache).wf(),
        old(cache)@.contains_key(word@) ==> r == old(cache)@[word@] && final(cache)@ == old(
            cache,
        )@,
        !old(cache)@.contains_key(word@) ==> r == fixation_length(
            word@.len(),
            fixation_point as nat,
        ) && final(cache)@ == old(cache)@.insert(word@, r as nat),
        r <= word@.len(),
{
    match cache.lookup(word) {
        Some(fixation) => fixation,
        None => {
            let fixation = calculate_fixation(word, fixation_point);
            cache.insert(word, fixation);
            fixation
        },
    }
}

} // verus!
