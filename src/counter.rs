use vstd::prelude::*;
use vstd::string::*;

verus! {

/// The key of the bigram `(a, b)`: the two tokens joined by one space.
pub open spec fn bigram_key(a: Seq<char>, b: Seq<char>) -> Seq<char> {
    a + seq![' '] + b
}

/// How often `k` was counted in `m` (zero when absent).
pub open spec fn count_in(m: Map<Seq<char>, nat>, k: Seq<char>) -> nat {
    if m.contains_key(k) {
        m[k]
    } else {
        0
    }
}

/// The counts after one more occurrence of `k`.
pub open spec fn counted(m: Map<Seq<char>, nat>, k: Seq<char>) -> Map<Seq<char>, nat> {
    m.insert(k, count_in(m, k) + 1)
}

/// The first-seen order after an occurrence of `k`: `k` is appended when it
/// is new.
pub open spec fn ordered(order: Seq<Seq<char>>, k: Seq<char>) -> Seq<Seq<char>> {
    if order.contains(k) {
        order
    } else {
        order.push(k)
    }
}

/// Counts of bigram keys, with the order in which each key was first seen.
pub struct CounterMap {
    keys: Vec<String>,
    counts: Vec<u32>,
    max: u32,
    tally: Ghost<Map<Seq<char>, nat>>,
}

impl View for CounterMap {
    type V = Map<Seq<char>, nat>;

    closed spec fn view(&self) -> Map<Seq<char>, nat> {
        self.tally@
    }
}

impl CounterMap {
    /// The distinct keys, in the order in which each was first counted.
    pub closed spec fn order(&self) -> Seq<Seq<char>> {
        self.keys@.map_values(|k: String| k@)
    }

    /// Each key occurs once in the first-seen order, and the keys there are
    /// the keys counted.
    pub open spec fn order_matches_keys(&self) -> bool {
        &&& self.order().no_duplicates()
        &&& self.order().to_set() == self@.dom()
    }

    /// How often `k` was counted.
    pub open spec fn count_of(&self, k: Seq<char>) -> nat {
        count_in(self@, k)
    }

    pub closed spec fn wf(&self) -> bool {
        &&& self.keys@.len() == self.counts@.len()
        &&& self.order().no_duplicates()
        &&& self.tally@.dom() == self.order().to_set()
        &&& forall|i: int|
            0 <= i < self.counts@.len() ==> self.tally@[#[trigger] self.keys@[i]@]
                == self.counts@[i] as nat && self.counts@[i] <= self.max
    }

    /// An empty map.
    pub fn new() -> (r: CounterMap)
        ensures
            r.wf(),
            r@ == Map::<Seq<char>, nat>::empty(),
            r.order() == Seq::<Seq<char>>::empty(),
            r.order_matches_keys(),
    {
        let r = CounterMap { keys: Vec::new(), counts: Vec::new(), max: 0, tally: Ghost(Map::empty()) };
        assert(r.order() =~= Seq::<Seq<char>>::empty());
        assert(r.tally@.dom() =~= r.order().to_set());
        r
    }

    /// Position of `key` among the keys, if it was counted.
    fn find(&self, key: &String) -> (r: Option<usize>)
        requires
            self.wf(),
        ensures
            r is None <==> !self@.contains_key(key@),
            r matches Some(i) ==> i < self.keys@.len() && self.keys@[i as int]@ == key@,
    {
        let mut i: usize = 0;
        while i < self.keys.len()
            invariant
                self.wf(),
                i <= self.keys@.len(),
                forall|j: int| 0 <= j < i ==> self.keys@[j]@ != key@,
            decreases self.keys@.len() - i,
        {
            if self.keys[i] == *key {
                assert(self.order()[i as int] == key@);
                assert(self.order().to_set().contains(key@));
                return Some(i);
            }
            i = i + 1;
        }
        proof {
            if self@.contains_key(key@) {
                assert(self.order().contains(key@));
                let j = choose|j: int| 0 <= j < self.order().len() && self.order()[j] == key@;
                assert(self.keys@[j]@ == key@);
            }
        }
        None
    }

    /// Counts one more occurrence of `key`.
    pub fn record(&mut self, key: String)
        requires
            old(self).wf(),
            old(self).count_of(key@) < u32::MAX,
        ensures
            final(self).wf(),
            final(self).order_matches_keys(),
            final(self)@ == counted(old(self)@, key@),
            final(self).order() == ordered(old(self).order(), key@),
    {
        match self.find(&key) {
            Some(i) => {
                let c = self.counts[i];
                assert(self.tally@[self.keys@[i as int]@] == c as nat);
                self.counts[i] = c + 1;
                if c + 1 > self.max {
                    self.max = c + 1;
                }
                self.tally = Ghost(self.tally@.insert(key@, (c + 1) as nat));
                assert(old(self).order().contains(key@)) by {
                    assert(old(self).order()[i as int] == key@);
                }
                assert(self.order() =~= old(self).order());
                assert(self.tally@.dom() =~= self.order().to_set());
                assert forall|j: int| 0 <= j < self.counts@.len() implies self.tally@[
                    #[trigger] self.keys@[j]@] == self.counts@[j] as nat && self.counts@[j]
                    <= self.max by {
                    if j != i {
                        assert(self.order()[j] != self.order()[i as int]);
                    }
                }
            },
            None => {
                let ghost k = key@;
                self.keys.push(key);
                self.counts.push(1);
                if self.max == 0 {
                    self.max = 1;
                }
                self.tally = Ghost(self.tally@.insert(k, 1));
                assert(!old(self).order().contains(k));
                assert(self.order() =~= old(self).order().push(k));
                proof {
                    old(self).order().lemma_push_to_set_commute(k);
                }
                assert forall|j: int| 0 <= j < self.counts@.len() implies self.tally@[
                    #[trigger] self.keys@[j]@] == self.counts@[j] as nat && self.counts@[j]
                    <= self.max by {
                    if j < old(self).keys@.len() {
                        assert(old(self).order()[j] != k);
                    }
                }
                assert(self.order().no_duplicates()) by {
                    assert forall|a: int, b: int|
                        0 <= a < self.order().len() && 0 <= b < self.order().len() && a != b
                        implies self.order()[a] != self.order()[b] by {
                        if b == old(self).keys@.len() {
                            assert(old(self).order()[a] != k);
                        } else if a == old(self).keys@.len() {
                            assert(old(self).order()[b] != k);
                        }
                    }
                }
                assert(self.tally@.dom() =~= self.order().to_set());
            },
        }
    }

    /// The count of `key`, if it was counted.
    pub fn get(&self, key: &str) -> (r: Option<u32>)
        requires
            self.wf(),
        ensures
            r is None <==> !self@.contains_key(key@),
            r matches Some(c) ==> c as nat == self@[key@],
    {
        let k = key.to_owned();
        match self.find(&k) {
            Some(i) => Some(self.counts[i]),
            None => None,
        }
    }

    /// Whether `key` was counted.
    pub fn contains_key(&self, key: &str) -> (r: bool)
        requires
            self.wf(),
        ensures
            r == self@.contains_key(key@),
    {
        let k = key.to_owned();
        self.find(&k).is_some()
    }

    /// The number of distinct keys.
    pub fn len(&self) -> (r: usize)
        requires
            self.wf(),
        ensures
            r == self.order().len(),
            r == self@.len(),
    {
        proof {
            self.order().unique_seq_to_set();
        }
        self.keys.len()
    }

    /// The `i`-th key in first-seen order.
    pub fn key_at(&self, i: usize) -> (r: &str)
        requires
            self.wf(),
            i < self.order().len(),
        ensures
            r@ == self.order()[i as int],
    {
        self.keys[i].as_str()
    }

    /// The count of the `i`-th key in first-seen order.
    pub fn count_at(&self, i: usize) -> (r: u32)
        requires
            self.wf(),
            i < self.order().len(),
        ensures
            r as nat == self@[self.order()[i as int]],
    {
        self.counts[i]
    }

    /// A bound on every count: no key was counted more often.
    pub fn max_count(&self) -> (r: u32)
        requires
            self.wf(),
        ensures
            forall|k: Seq<char>| self.count_of(k) <= r,
    {
        proof {
            assert forall|k: Seq<char>| self.count_of(k) <= self.max by {
                if self@.contains_key(k) {
                    assert(self.order().to_set().contains(k));
                    let j = choose|j: int| 0 <= j < self.order().len() && self.order()[j] == k;
                    assert(self.keys@[j]@ == k);
                }
            }
        }
        self.max
    }
}

/// The key of the first two tokens of the window.
pub fn get_key_from_vec(rolling_vector: &Vec<String>) -> (r: String)
    requires
        rolling_vector@.len() >= 2,
    ensures
        r@ == bigram_key(rolling_vector@[0]@, rolling_vector@[1]@),
{
    let mut key = String::new();
    key.append(rolling_vector[0].as_str());
    key.append(" ");
    key.append(rolling_vector[1].as_str());
    proof {
        reveal_strlit(" ");
    }
    assert(key@ =~= bigram_key(rolling_vector@[0]@, rolling_vector@[1]@));
    key
}

/// The keys of the adjacent pairs of a token stream, in stream order.
pub open spec fn bigram_keys(s: Seq<Seq<char>>) -> Seq<Seq<char>>
    decreases s.len(),
{
    if s.len() < 2 {
        seq![]
    } else {
        bigram_keys(s.drop_last()).push(bigram_key(s[s.len() - 2], s.last()))
    }
}

/// The counts after each of `keys` is counted once more, in turn.
pub open spec fn counted_all(m: Map<Seq<char>, nat>, keys: Seq<Seq<char>>) -> Map<Seq<char>, nat>
    decreases keys.len(),
{
    if keys.len() == 0 {
        m
    } else {
        counted(counted_all(m, keys.drop_last()), keys.last())
    }
}

/// The first-seen order after each of `keys` occurs, in turn.
pub open spec fn ordered_all(order: Seq<Seq<char>>, keys: Seq<Seq<char>>) -> Seq<Seq<char>>
    decreases keys.len(),
{
    if keys.len() == 0 {
        order
    } else {
        ordered(ordered_all(order, keys.drop_last()), keys.last())
    }
}

/// The window left once a stream has been fed: its last token, if any.
pub open spec fn last_window(s: Seq<Seq<char>>) -> Seq<Seq<char>> {
    if s.len() == 0 {
        s
    } else {
        seq![s.last()]
    }
}

/// The tokens held by a window, as texts.
pub open spec fn window_of(v: Seq<String>) -> Seq<Seq<char>> {
    v.map_values(|t: String| t@)
}

proof fn lemma_bigram_keys_len(s: Seq<Seq<char>>)
    ensures
        bigram_keys(s).len() == if s.len() == 0 { 0 } else { s.len() - 1 },
    decreases s.len(),
{
    if s.len() >= 2 {
        lemma_bigram_keys_len(s.drop_last());
    }
}

/// Feeds one token to the sliding window: when the window then holds two
/// tokens, their bigram is counted and the window keeps the second one.
pub fn calculate_counts(counter_map: &mut CounterMap, rolling_vector: &mut Vec<String>, word: &str)
    requires
        old(counter_map).wf(),
        old(rolling_vector)@.len() <= 1,
        old(rolling_vector)@.len() == 1 ==> old(counter_map).count_of(
            bigram_key(old(rolling_vector)@[0]@, word@),
        ) < u32::MAX,
    ensures
        final(counter_map).wf(),
        final(counter_map).order_matches_keys(),
        final(rolling_vector)@.len() == 1,
        final(rolling_vector)@[0]@ == word@,
        old(rolling_vector)@.len() == 0 ==> final(counter_map)@ == old(counter_map)@
            && final(counter_map).order() == old(counter_map).order(),
        old(rolling_vector)@.len() == 1 ==> ({
            let k = bigram_key(old(rolling_vector)@[0]@, word@);
            &&& final(counter_map)@ == counted(old(counter_map)@, k)
            &&& final(counter_map).order() == ordered(old(counter_map).order(), k)
        }),
{
    if rolling_vector.len() < 2 {
        rolling_vector.push(word.to_owned());
    }
    if rolling_vector.len() == 2 {
        let key = get_key_from_vec(rolling_vector);
        counter_map.record(key);
        let second = rolling_vector[1].clone();
        *rolling_vector = vec![second];
    }
}

/// Feeds a sequence of tokens to the sliding window, one by one, counting
/// every bigram formed. The window carries over between calls, so a stream
/// fed in several parts is counted as one continuous stream.
pub fn feed_tokens(counter_map: &mut CounterMap, rolling_vector: &mut Vec<String>, tokens: &Vec<String>)
    requires
        old(counter_map).wf(),
        old(rolling_vector)@.len() <= 1,
        forall|k: Seq<char>| old(counter_map).count_of(k) + tokens@.len() <= u32::MAX,
    ensures
        final(counter_map).wf(),
        final(counter_map).order_matches_keys(),
        ({
            let stream = window_of(old(rolling_vector)@) + window_of(tokens@);
            &&& final(counter_map)@ == counted_all(old(counter_map)@, bigram_keys(stream))
            &&& final(counter_map).order() == ordered_all(old(counter_map).order(), bigram_keys(stream))
            &&& window_of(final(rolling_vector)@) == last_window(stream)
        }),
{
    let ghost w = window_of(rolling_vector@);
    let ghost ts = window_of(tokens@);
    let ghost m0 = counter_map@;
    let ghost o0 = counter_map.order();
    proof {
        assert(w + ts.take(0) =~= w);
        if w.len() == 1 {
            assert(w.drop_last() =~= Seq::<Seq<char>>::empty());
        }
        assert(last_window(w) =~= w);
        lemma_bigram_keys_len(w);
        assert forall|k: Seq<char>| #[trigger] count_in(counter_map@, k) + tokens@.len() <= u32::MAX by {
            assert(counter_map.count_of(k) + tokens@.len() <= u32::MAX);
        }
    }
    let mut i: usize = 0;
    while i < tokens.len()
        invariant
            i <= tokens@.len(),
            counter_map.wf(),
            rolling_vector@.len() <= 1,
            forall|k: Seq<char>| #[trigger] count_in(counter_map@, k) + (tokens@.len() - i) <= u32::MAX,
            w.len() <= 1,
            ts == window_of(tokens@),
            counter_map@ == counted_all(m0, bigram_keys(w + ts.take(i as int))),
            counter_map.order() == ordered_all(o0, bigram_keys(w + ts.take(i as int))),
            window_of(rolling_vector@) == last_window(w + ts.take(i as int)),
        decreases tokens@.len() - i,
    {
        let ghost before = w + ts.take(i as int);
        let ghost after = w + ts.take(i + 1);
        proof {
            assert(after =~= before.push(ts[i as int]));
            assert(after.drop_last() =~= before);
            lemma_bigram_keys_len(before);
            if before.len() >= 1 {
                assert(bigram_keys(after) == bigram_keys(before).push(
                    bigram_key(before.last(), ts[i as int]),
                ));
                assert(bigram_keys(after).drop_last() =~= bigram_keys(before));
            } else {
                assert(bigram_keys(after) =~= bigram_keys(before));
            }
        }
        let ghost rv = rolling_vector@;
        let ghost m_before = counter_map@;
        if rolling_vector.len() == 1 {
            assert(count_in(m_before, bigram_key(rv[0]@, tokens@[i as int]@)) + (tokens@.len() - i) <= u32::MAX);
        }
        let ghost window_before = window_of(rolling_vector@);
        assert(window_before.len() == rv.len());
        calculate_counts(counter_map, rolling_vector, tokens[i].as_str());
        proof {
            if before.len() >= 1 {
                let k = bigram_key(before.last(), ts[i as int]);
                assert(window_before[0] == before.last());
                assert(window_before[0] == rv[0]@);
                assert(tokens@[i as int]@ == ts[i as int]);
                assert(bigram_keys(after).last() == k);
                assert(counted_all(m0, bigram_keys(after)) == counted(
                    counted_all(m0, bigram_keys(before)),
                    k,
                ));
                assert(ordered_all(o0, bigram_keys(after)) == ordered(
                    ordered_all(o0, bigram_keys(before)),
                    k,
                ));
            }
            assert(counter_map@ == counted_all(m0, bigram_keys(after)));
            assert(counter_map.order() == ordered_all(o0, bigram_keys(after)));
        }
        i = i + 1;
        assert forall|k: Seq<char>| #[trigger] count_in(counter_map@, k) + (tokens@.len() - i) <= u32::MAX by {
            assert(count_in(m_before, k) + (tokens@.len() - (i - 1)) <= u32::MAX);
            if rv.len() == 1 {
                let key = bigram_key(rv[0]@, tokens@[i - 1]@);
                assert(counter_map@ == counted(m_before, key));
                if k != key {
                    assert(counter_map@.contains_key(k) == m_before.contains_key(k));
                }
            }
            assert(count_in(counter_map@, k) <= count_in(m_before, k) + 1);
        }
        assert(window_of(rolling_vector@) =~= last_window(after));
    }
    assert(ts.take(tokens@.len() as int) =~= ts);
}

/// Counting two runs of keys in turn is counting the joined run.
pub proof fn lemma_counted_all_concat(
    m: Map<Seq<char>, nat>,
    o: Seq<Seq<char>>,
    k1: Seq<Seq<char>>,
    k2: Seq<Seq<char>>,
)
    ensures
        counted_all(counted_all(m, k1), k2) == counted_all(m, k1 + k2),
        ordered_all(ordered_all(o, k1), k2) == ordered_all(o, k1 + k2),
    decreases k2.len(),
{
    if k2.len() == 0 {
        assert(k1 + k2 =~= k1);
    } else {
        assert((k1 + k2).drop_last() =~= k1 + k2.drop_last());
        lemma_counted_all_concat(m, o, k1, k2.drop_last());
    }
}

/// The bigrams of a stream fed in two parts, with the window carried over
/// between them, are the bigrams of the whole stream.
proof fn lemma_bigram_keys_split(s: Seq<Seq<char>>, b: Seq<Seq<char>>)
    ensures
        bigram_keys(s) + bigram_keys(last_window(s) + b) == bigram_keys(s + b),
    decreases b.len(),
{
    let l = last_window(s);
    if b.len() == 0 {
        assert(l + b =~= l);
        assert(s + b =~= s);
        if l.len() == 1 {
            assert(l.drop_last() =~= Seq::<Seq<char>>::empty());
        }
        assert(bigram_keys(l) =~= Seq::<Seq<char>>::empty());
        assert(bigram_keys(s) + bigram_keys(l) =~= bigram_keys(s));
    } else {
        let b0 = b.drop_last();
        lemma_bigram_keys_split(s, b0);
        assert((s + b).drop_last() =~= s + b0);
        assert((l + b).drop_last() =~= l + b0);
        if s.len() + b0.len() >= 1 {
            assert((s + b0).last() == (l + b0).last());
            assert(bigram_keys(s) + bigram_keys(l + b) =~= (bigram_keys(s) + bigram_keys(l + b0)).push(
                bigram_key((s + b0).last(), b.last()),
            ));
        } else {
            assert(l =~= Seq::<Seq<char>>::empty());
            assert(s + b =~= b);
            assert(l + b =~= b);
        }
    }
}

/// A line break does not cut the stream: feeding the tokens of `a`, then
/// those of `b` with the window left by `a`, counts every key as often, and
/// in the same first-seen order, as feeding `a` and `b` joined, and leaves
/// the same window.
pub proof fn lemma_feed_in_parts(
    m: Map<Seq<char>, nat>,
    o: Seq<Seq<char>>,
    w: Seq<Seq<char>>,
    a: Seq<Seq<char>>,
    b: Seq<Seq<char>>,
)
    ensures
        ({
            let first = bigram_keys(w + a);
            let second = bigram_keys(last_window(w + a) + b);
            let whole = bigram_keys(w + (a + b));
            &&& counted_all(counted_all(m, first), second) == counted_all(m, whole)
            &&& ordered_all(ordered_all(o, first), second) == ordered_all(o, whole)
            &&& last_window(last_window(w + a) + b) == last_window(w + (a + b))
        }),
{
    assert(w + (a + b) =~= (w + a) + b);
    lemma_bigram_keys_split(w + a, b);
    lemma_counted_all_concat(m, o, bigram_keys(w + a), bigram_keys(last_window(w + a) + b));
    if b.len() == 0 {
        assert(last_window(w + a) + b =~= last_window(w + a));
    } else {
        assert((last_window(w + a) + b).last() == b.last());
    }
}

} // verus!
