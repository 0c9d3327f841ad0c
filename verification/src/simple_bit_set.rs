use vstd::prelude::*;

verus! {

/// Bit `j` (counting from the least significant) of `w` is set.
pub open spec fn bit_of(w: u64, j: u64) -> bool {
    (w >> j) & 1u64 == 1u64
}

/// The number of set bits of `w` among its lowest `k`.
pub open spec fn ones_in_word(w: u64, k: int) -> nat
    decreases k,
{
    if k <= 0 {
        0
    } else {
        ones_in_word(w, k - 1) + if bit_of(w, (k - 1) as u64) {
            1nat
        } else {
            0nat
        }
    }
}

/// The number of set bits of a word.
pub open spec fn popcount(w: u64) -> nat {
    ones_in_word(w, 64)
}

/// The members of the set that a sequence of words encodes: bit `i % 64` of word `i / 64`
/// stands for member `i`.
pub open spec fn members_of(words: Seq<u64>) -> Set<int> {
    Set::new(|i: int| 0 <= i < 64 * words.len() && bit_of(words[i / 64], (i % 64) as u64))
}

/// The number of members below `n` of the set that `words` encodes.
pub open spec fn members_below(words: Seq<u64>, n: int) -> nat
    decreases n,
{
    if n <= 0 {
        0
    } else {
        members_below(words, n - 1) + if members_of(words).contains(n - 1) {
            1nat
        } else {
            0nat
        }
    }
}

/// The sum of the popcounts of the first `k` words.
pub open spec fn popcount_sum(words: Seq<u64>, k: int) -> nat
    decreases k,
{
    if k <= 0 {
        0
    } else {
        popcount_sum(words, k - 1) + popcount(words[k - 1])
    }
}

proof fn lemma_bit_set(w: u64, b: u64, j: u64)
    requires
        b < 64,
        j < 64,
    ensures
        bit_of(w | (1u64 << b), j) == (j == b || bit_of(w, j)),
{
    assert(((w | (1u64 << b)) >> j) & 1u64 == 1u64 <==> (j == b || (w >> j) & 1u64 == 1u64))
        by (bit_vector)
        requires
            b < 64,
            j < 64,
    ;
}

proof fn lemma_bit_clear(w: u64, b: u64, j: u64)
    requires
        b < 64,
        j < 64,
    ensures
        bit_of(w & !(1u64 << b), j) == (j != b && bit_of(w, j)),
{
    assert(((w & !(1u64 << b)) >> j) & 1u64 == 1u64 <==> (j != b && (w >> j) & 1u64 == 1u64))
        by (bit_vector)
        requires
            b < 64,
            j < 64,
    ;
}

proof fn lemma_bit_and(v: u64, w: u64, j: u64)
    requires
        j < 64,
    ensures
        bit_of(v & w, j) == (bit_of(v, j) && bit_of(w, j)),
{
    assert(((v & w) >> j) & 1u64 == 1u64 <==> ((v >> j) & 1u64 == 1u64 && (w >> j) & 1u64
        == 1u64)) by (bit_vector)
        requires
            j < 64,
    ;
}

proof fn lemma_bit_or(v: u64, w: u64, j: u64)
    requires
        j < 64,
    ensures
        bit_of(v | w, j) == (bit_of(v, j) || bit_of(w, j)),
{
    assert(((v | w) >> j) & 1u64 == 1u64 <==> ((v >> j) & 1u64 == 1u64 || (w >> j) & 1u64
        == 1u64)) by (bit_vector)
        requires
            j < 64,
    ;
}

proof fn lemma_bit_zero_max(j: u64)
    requires
        j < 64,
    ensures
        !bit_of(0u64, j),
        bit_of(0xffff_ffff_ffff_ffffu64, j),
{
    assert(!((0u64 >> j) & 1u64 == 1u64)) by (bit_vector);
    assert((0xffff_ffff_ffff_ffffu64 >> j) & 1u64 == 1u64) by (bit_vector)
        requires
            j < 64,
    ;
}

proof fn lemma_bit_low_mask(r: u64, j: u64)
    requires
        r < 64,
        j < 64,
    ensures
        bit_of((((1u64 << r) - 1u64) as u64), j) == (j < r),
{
    assert((((((1u64 << r) - 1u64) as u64) >> j) & 1u64 == 1u64) == (j < r)) by (bit_vector)
        requires
            r < 64,
            j < 64,
    ;
}

/// Clearing the lowest set bit of a nonzero word: `w & (w - 1)` keeps every set bit
/// but the one at `trailing_zeros(w)`, and every bit below that one is clear.
proof fn lemma_clear_lowest(w: u64, j: u64)
    requires
        w != 0,
        j < 64,
    ensures
        (w.trailing_zeros() as u64) < 64,
        bit_of(w, w.trailing_zeros() as u64),
        j < w.trailing_zeros() ==> !bit_of(w, j),
        bit_of(w & ((w - 1u64) as u64), j) == (j != w.trailing_zeros() && bit_of(w, j)),
{
    vstd::std_specs::bits::axiom_u64_trailing_zeros(w);
    let t = w.trailing_zeros() as u64;
    assert(w << ((64u64 - t) as u64) == 0u64);
    if j < t {
        assert((w >> j) & 1u64 == 0u64);
    }
    assert(((w & ((w - 1u64) as u64)) >> j) & 1u64 == 1u64 <==> (j != t && (w >> j) & 1u64 == 1u64))
        by (bit_vector)
        requires
            w != 0,
            t < 64,
            j < 64,
            (w >> t) & 1u64 == 1u64,
            w << ((64u64 - t) as u64) == 0u64,
    ;
}

proof fn lemma_members_of_finite(words: Seq<u64>)
    ensures
        members_of(words).finite(),
        forall|i: int| members_of(words).contains(i) ==> 0 <= i < 64 * words.len(),
{
    let r = Set::new(|i: int| 0 <= i < 64 * words.len());
    assert(r =~= vstd::set_lib::set_int_range(0, 64 * words.len() as int));
    vstd::set_lib::lemma_int_range(0, 64 * words.len() as int);
    assert(members_of(words).subset_of(r));
    vstd::set_lib::lemma_len_subset(members_of(words), r);
}

/// The members below `n` are `members_below(words, n)` many.
proof fn lemma_members_below_len(words: Seq<u64>, n: int)
    requires
        0 <= n,
    ensures
        members_of(words).filter(|i: int| i < n).len() == members_below(words, n),
        members_of(words).filter(|i: int| i < n).finite(),
    decreases n,
{
    let s = members_of(words);
    lemma_members_of_finite(words);
    let f = s.filter(|i: int| i < n);
    s.lemma_len_filter(|i: int| i < n);
    if n == 0 {
        assert(f =~= Set::empty());
    } else {
        lemma_members_below_len(words, n - 1);
        let g = s.filter(|i: int| i < n - 1);
        s.lemma_len_filter(|i: int| i < n - 1);
        if s.contains(n - 1) {
            assert(f =~= g.insert(n - 1));
        } else {
            assert(f =~= g);
        }
    }
}

/// Counting members word by word: the members below `64 * k + j` are the popcounts of
/// the first `k` words plus the set bits below `j` of word `k`.
proof fn lemma_members_below_words(words: Seq<u64>, k: int, j: int)
    requires
        0 <= k < words.len(),
        0 <= j <= 64,
    ensures
        members_below(words, 64 * k + j) == popcount_sum(words, k) + ones_in_word(words[k], j),
    decreases k, j,
{
    if j == 0 {
        if k > 0 {
            lemma_members_below_words(words, k - 1, 64);
        }
    } else {
        lemma_members_below_words(words, k, j - 1);
        let i = 64 * k + j - 1;
        assert(i / 64 == k && i % 64 == j - 1) by {
            vstd::arithmetic::div_mod::lemma_fundamental_div_mod_converse(i, 64, k, j - 1);
        }
    }
}

proof fn lemma_count_is_len(words: Seq<u64>)
    ensures
        members_of(words).len() == popcount_sum(words, words.len() as int),
        members_of(words).finite(),
{
    let s = members_of(words);
    let n = 64 * words.len() as int;
    lemma_members_of_finite(words);
    lemma_members_below_len(words, n);
    assert(s.filter(|i: int| i < n) =~= s);
    if words.len() == 0 {
        assert(s =~= Set::empty());
    } else {
        lemma_members_below_words(words, words.len() - 1, 64);
    }
}

proof fn lemma_popcount_sum_prefix(a: Seq<u64>, b: Seq<u64>, k: int)
    requires
        0 <= k <= a.len(),
        k <= b.len(),
        forall|i: int| 0 <= i < k ==> a[i] == b[i],
    ensures
        popcount_sum(a, k) == popcount_sum(b, k),
    decreases k,
{
    if k > 0 {
        lemma_popcount_sum_prefix(a, b, k - 1);
    }
}

/// `q` lists the members of `s` in increasing order, each once.
pub open spec fn lists_in_order(q: Seq<usize>, s: Set<int>) -> bool {
    &&& forall|i: int, j: int| 0 <= i < j < q.len() ==> q[i] < q[j]
    &&& forall|x: int| s.contains(x) <==> exists|k: int| 0 <= k < q.len() && q[k] as int == x
}

/// The members of `s` in increasing order.
pub open spec fn ascending(s: Set<int>) -> Seq<usize> {
    choose|q: Seq<usize>| lists_in_order(q, s)
}

/// What [`SimpleBitSet::set`] and [`SimpleBitSet::clear`] leave for
/// [`SimpleBitSet::contains`] to read: after adding `i` it is a member, after removing it
/// it is not, and every other member stays as it was.
pub proof fn lemma_set_clear_contains(s: Set<int>, i: int)
    ensures
        s.insert(i).contains(i),
        !s.remove(i).contains(i),
        forall|j: int| j != i ==> s.insert(i).contains(j) == s.contains(j) && s.remove(i).contains(j) == s.contains(j),
{
}

/// The set that [`SimpleBitSet::full`] makes for `n` bits holds `n` members, so
/// [`SimpleBitSet::count`] gives `n` back.
pub proof fn lemma_full_len(n: nat)
    ensures
        Set::new(|i: int| 0 <= i < n).finite(),
        Set::new(|i: int| 0 <= i < n).len() == n,
{
    vstd::set_lib::lemma_int_range(0, n as int);
    assert(Set::new(|i: int| 0 <= i < n) =~= vstd::set_lib::set_int_range(0, n as int));
}

/// A set of naturals below `n` has an increasing listing, so [`ascending`] lists it.
pub proof fn lemma_ascending_lists(s: Set<int>, n: int)
    requires
        0 <= n <= usize::MAX,
        forall|x: int| s.contains(x) ==> 0 <= x < n,
    ensures
        lists_in_order(ascending(s), s),
{
    let q = listing_below(s, n);
}

proof fn listing_below(s: Set<int>, n: int) -> (q: Seq<usize>)
    requires
        0 <= n <= usize::MAX,
        forall|x: int| s.contains(x) ==> 0 <= x < n,
    ensures
        lists_in_order(q, s),
        forall|k: int| 0 <= k < q.len() ==> q[k] < n,
    decreases n,
{
    if n == 0 {
        assert forall|x: int| s.contains(x) <==> exists|k: int| 0 <= k < 0 && Seq::<usize>::empty()[k] as int == x by {}
        Seq::empty()
    } else {
        let t = s.remove(n - 1);
        let q0 = listing_below(t, n - 1);
        if s.contains(n - 1) {
            let q = q0.push((n - 1) as usize);
            assert forall|x: int| s.contains(x) <==> exists|k: int| 0 <= k < q.len() && q[k] as int == x by {
                if s.contains(x) {
                    if x == n - 1 {
                        assert(q[q0.len() as int] as int == x);
                    } else {
                        assert(t.contains(x));
                        let k = choose|k: int| 0 <= k < q0.len() && q0[k] as int == x;
                        assert(q[k] == q0[k]);
                    }
                }
                if exists|k: int| 0 <= k < q.len() && q[k] as int == x {
                    let k = choose|k: int| 0 <= k < q.len() && q[k] as int == x;
                    if k < q0.len() {
                        assert(q[k] == q0[k]);
                        assert(t.contains(x));
                    }
                }
            }
            q
        } else {
            assert(t =~= s);
            q0
        }
    }
}

/// At most one sequence lists a set in increasing order.
pub proof fn lemma_lists_in_order_unique(a: Seq<usize>, b: Seq<usize>, s: Set<int>)
    requires
        lists_in_order(a, s),
        lists_in_order(b, s),
    ensures
        a == b,
    decreases a.len() + b.len(),
{
    if a.len() == 0 && b.len() == 0 {
        assert(a =~= b);
    } else if a.len() == 0 {
        assert(s.contains(b[0] as int));
    } else if b.len() == 0 {
        assert(s.contains(a[0] as int));
    } else {
        assert(s.contains(a[0] as int));
        assert(s.contains(b[0] as int));
        let ka = choose|k: int| 0 <= k < b.len() && b[k] as int == a[0] as int;
        let kb = choose|k: int| 0 <= k < a.len() && a[k] as int == b[0] as int;
        if ka > 0 {
            assert(b[0] < b[ka]);
        }
        if kb > 0 {
            assert(a[0] < a[kb]);
        }
        assert(a[0] == b[0]);
        let t = s.remove(a[0] as int);
        let a2 = a.drop_first();
        let b2 = b.drop_first();
        assert forall|x: int| t.contains(x) <==> exists|k: int| 0 <= k < a2.len() && a2[k] as int == x by {
            if t.contains(x) {
                let k = choose|k: int| 0 <= k < a.len() && a[k] as int == x;
                assert(k != 0);
                assert(a2[k - 1] as int == x);
            }
            if exists|k: int| 0 <= k < a2.len() && a2[k] as int == x {
                let k = choose|k: int| 0 <= k < a2.len() && a2[k] as int == x;
                assert(a[k + 1] as int == x);
                assert(a[0] < a[k + 1]);
            }
        }
        assert forall|x: int| t.contains(x) <==> exists|k: int| 0 <= k < b2.len() && b2[k] as int == x by {
            if t.contains(x) {
                let k = choose|k: int| 0 <= k < b.len() && b[k] as int == x;
                assert(k != 0);
                assert(b2[k - 1] as int == x);
            }
            if exists|k: int| 0 <= k < b2.len() && b2[k] as int == x {
                let k = choose|k: int| 0 <= k < b2.len() && b2[k] as int == x;
                assert(b[k + 1] as int == x);
                assert(b[0] < b[k + 1]);
            }
        }
        lemma_lists_in_order_unique(a2, b2, t);
        assert(a =~= seq![a[0]] + a2);
        assert(b =~= seq![b[0]] + b2);
    }
}

/// The number of set bits of a word, counted bit by bit.
fn word_count_ones(w: u64) -> (r: u32)
    ensures
        r == popcount(w),
{
    let mut count: u32 = 0;
    let mut j: u64 = 0;
    while j < 64
        invariant
            0 <= j <= 64,
            count == ones_in_word(w, j as int),
            count <= j,
        decreases 64 - j,
    {
        if (w >> j) & 1u64 == 1u64 {
            count = count + 1;
        }
        j = j + 1;
    }
    count
}

/// A fixed-capacity set of small integers, stored as a vector of 64 bit words.
#[derive(Debug)]
pub struct SimpleBitSet {
    words: Vec<u64>,
}

impl View for SimpleBitSet {
    type V = Set<int>;

    closed spec fn view(&self) -> Set<int> {
        members_of(self.words@)
    }
}

impl Clone for SimpleBitSet {
    fn clone(&self) -> (r: Self)
        ensures
            r@ == self@,
            r.capacity() == self.capacity(),
    {
        proof {
            use_type_invariant(self);
        }
        SimpleBitSet { words: self.words.clone() }
    }
}

/// The number of words that hold `num_bits` bits: `num_bits` divided by 64, rounded up.
pub open spec fn words_for_bits(num_bits: int) -> int {
    (num_bits + 63) / 64
}

impl SimpleBitSet {
    #[verifier::type_invariant]
    spec fn members_are_addressable(self) -> bool {
        64 * self.words@.len() <= usize::MAX
    }

    /// How many members the set can hold: 64 per word; members lie in `0..capacity()`.
    pub closed spec fn capacity(&self) -> nat {
        64 * self.words@.len()
    }

    /// Every member lies below the capacity, and there are finitely many.
    pub broadcast proof fn lemma_members_bounded(s: &SimpleBitSet)
        ensures
            #![trigger s@]
            s@.finite(),
            forall|i: int| s@.contains(i) ==> 0 <= i < s.capacity(),
            s.capacity() % 64 == 0,
    {
        lemma_members_of_finite(s.words@);
    }

    /// An empty set with room for `num_bits` members.
    pub fn new(num_bits: usize) -> (r: Self)
        requires
            num_bits <= usize::MAX - 63,
        ensures
            r@ == Set::<int>::empty(),
            r.capacity() == 64 * words_for_bits(num_bits as int),
    {
        let words_num = SimpleBitSet::calculate_words_from_bits(num_bits);
        let r = SimpleBitSet { words: vec![0u64; words_num] };
        proof {
            assert forall|i: int| !r@.contains(i) by {
                if 0 <= i < 64 * words_num {
                    lemma_bit_zero_max((i % 64) as u64);
                }
            }
            assert(r@ =~= Set::<int>::empty());
        }
        r
    }

    /// The set `0..num_bits`.
    pub fn full(num_bits: usize) -> (r: Self)
        requires
            num_bits <= usize::MAX - 63,
        ensures
            r@ == Set::new(|i: int| 0 <= i < num_bits),
            r.capacity() == 64 * words_for_bits(num_bits as int),
    {
        let words_num = SimpleBitSet::calculate_words_from_bits(num_bits);
        let mut word_vec: Vec<u64> = Vec::with_capacity(words_num);
        let needs_masking = num_bits % 64 != 0;
        let mut i: usize = 0;
        while i < words_num
            invariant
                0 <= i <= words_num,
                words_num == words_for_bits(num_bits as int),
                needs_masking == (num_bits % 64 != 0),
                word_vec@.len() == i,
                forall|k: int| 0 <= k < i ==> (#[trigger] word_vec@[k] == if needs_masking && k == words_num - 1 {
                    (((1u64 << ((num_bits % 64) as u64)) - 1u64) as u64)
                } else {
                    0xffff_ffff_ffff_ffffu64
                }),
            decreases words_num - i,
        {
            if needs_masking && i == words_num - 1 {
                proof {
                    let r = (num_bits % 64) as u64;
                    assert(1u64 << r >= 1u64) by (bit_vector)
                        requires
                            r < 64,
                    ;
                }
                word_vec.push((1u64 << ((num_bits % 64) as u64)) - 1);
            } else {
                word_vec.push(u64::MAX);
            }
            i += 1;
        }
        let r = SimpleBitSet { words: word_vec };
        proof {
            assert forall|m: int| r@.contains(m) <==> 0 <= m < num_bits by {
                if 0 <= m < 64 * words_num {
                    let k = m / 64;
                    let j = (m % 64) as u64;
                    lemma_bit_zero_max(j);
                    if needs_masking && k == words_num - 1 {
                        lemma_bit_low_mask((num_bits % 64) as u64, j);
                    }
                }
            }
            assert(r@ =~= Set::new(|i: int| 0 <= i < num_bits));
        }
        r
    }

    /// The words that store the set: bit `j` of word `k` stands for member `64 * k + j`.
    pub fn words(&self) -> (r: &[u64])
        ensures
            members_of(r@) == self@,
            64 * r@.len() == self.capacity(),
    {
        self.words.as_slice()
    }

    /// The number of 64 bit words that hold `num_bits` bits.
    pub fn calculate_words_from_bits(num_bits: usize) -> (r: usize)
        ensures
            r == words_for_bits(num_bits as int),
    {
        if num_bits % 64 == 0 {
            num_bits / 64
        } else {
            num_bits / 64 + 1
        }
    }

    /// Adds `index` to the set.
    pub fn set(&mut self, index: usize)
        requires
            index < old(self).capacity(),
        ensures
            final(self)@ == old(self)@.insert(index as int),
            final(self).capacity() == old(self).capacity(),
    {
        proof {
            use_type_invariant(&*self);
        }
        let mut words: Vec<u64> = Vec::new();
        std::mem::swap(&mut words, &mut self.words);
        let word_idx = index / 64;
        let bit_idx = index % 64;
        words.set(word_idx, words[word_idx] | (1u64 << (bit_idx as u64)));
        self.words = words;
        proof {
            assert forall|i: int| self@.contains(i) <==> old(self)@.insert(index as int).contains(
                i,
            ) by {
                if 0 <= i < self.capacity() {
                    lemma_bit_set(old(self).words@[i / 64], bit_idx as u64, (i % 64) as u64);
                }
            }
            assert(self@ =~= old(self)@.insert(index as int));
        }
    }

    /// Removes `index` from the set.
    pub fn clear(&mut self, index: usize)
        requires
            index < old(self).capacity(),
        ensures
            final(self)@ == old(self)@.remove(index as int),
            final(self).capacity() == old(self).capacity(),
    {
        proof {
            use_type_invariant(&*self);
        }
        let mut words: Vec<u64> = Vec::new();
        std::mem::swap(&mut words, &mut self.words);
        let word_idx = index / 64;
        let bit_idx = index % 64;
        words.set(word_idx, words[word_idx] & !(1u64 << (bit_idx as u64)));
        self.words = words;
        proof {
            assert forall|i: int| self@.contains(i) <==> old(self)@.remove(index as int).contains(
                i,
            ) by {
                if 0 <= i < self.capacity() {
                    lemma_bit_clear(old(self).words@[i / 64], bit_idx as u64, (i % 64) as u64);
                }
            }
            assert(self@ =~= old(self)@.remove(index as int));
        }
    }

    /// Removes every member.
    pub fn clear_all(&mut self)
        ensures
            final(self)@ == Set::<int>::empty(),
            final(self).capacity() == old(self).capacity(),
    {
        proof {
            use_type_invariant(&*self);
        }
        let mut words: Vec<u64> = Vec::new();
        std::mem::swap(&mut words, &mut self.words);
        let n = words.len();
        let mut i: usize = 0;
        while i < n
            invariant
                0 <= i <= n,
                words@.len() == n,
                n == old(self).words@.len(),
                forall|k: int| 0 <= k < i ==> words@[k] == 0u64,
            decreases n - i,
        {
            words.set(i, 0u64);
            i += 1;
        }
        self.words = words;
        proof {
            assert forall|m: int| !self@.contains(m) by {
                if 0 <= m < self.capacity() {
                    lemma_bit_zero_max((m % 64) as u64);
                }
            }
            assert(self@ =~= Set::<int>::empty());
        }
    }

    /// Whether `index` is a member.
    pub fn contains(&self, index: usize) -> (r: bool)
        requires
            index < self.capacity(),
        ensures
            r == self@.contains(index as int),
    {
        let word_idx = index / 64;
        let bit_idx = index % 64;
        ((self.words[word_idx] >> (bit_idx as u64)) & 1u64) == 1
    }

    /// Keeps only the members that `other` holds too.
    pub fn intersect_with(&mut self, other: &SimpleBitSet)
        requires
            other.capacity() >= old(self).capacity(),
        ensures
            final(self)@ == old(self)@.intersect(other@),
            final(self).capacity() == old(self).capacity(),
    {
        proof {
            use_type_invariant(&*self);
        }
        let mut words: Vec<u64> = Vec::new();
        std::mem::swap(&mut words, &mut self.words);
        let n = words.len();
        let mut i: usize = 0;
        while i < n
            invariant
                0 <= i <= n,
                n == old(self).words@.len(),
                words@.len() == n,
                other.words@.len() >= n,
                forall|k: int| 0 <= k < i ==> words@[k] == old(self).words@[k] & other.words@[k],
                forall|k: int| i <= k < n ==> words@[k] == old(self).words@[k],
            decreases n - i,
        {
            words.set(i, words[i] & other.words[i]);
            i += 1;
        }
        self.words = words;
        proof {
            assert forall|m: int| self@.contains(m) <==> old(self)@.intersect(other@).contains(m) by {
                if 0 <= m < self.capacity() {
                    lemma_bit_and(old(self).words@[m / 64], other.words@[m / 64], (m % 64) as u64);
                }
            }
            assert(self@ =~= old(self)@.intersect(other@));
        }
    }

    /// Adds every member of `other` that fits in this set's capacity.
    pub fn union_with(&mut self, other: &SimpleBitSet)
        requires
            other.capacity() >= old(self).capacity(),
        ensures
            final(self)@ == old(self)@.union(other@.filter(|i: int| i < old(self).capacity())),
            final(self).capacity() == old(self).capacity(),
    {
        proof {
            use_type_invariant(&*self);
        }
        let mut words: Vec<u64> = Vec::new();
        std::mem::swap(&mut words, &mut self.words);
        let n = words.len();
        let mut i: usize = 0;
        while i < n
            invariant
                0 <= i <= n,
                n == old(self).words@.len(),
                words@.len() == n,
                other.words@.len() >= n,
                forall|k: int| 0 <= k < i ==> words@[k] == old(self).words@[k] | other.words@[k],
                forall|k: int| i <= k < n ==> words@[k] == old(self).words@[k],
            decreases n - i,
        {
            words.set(i, words[i] | other.words[i]);
            i += 1;
        }
        self.words = words;
        proof {
            let cap = old(self).capacity();
            assert forall|m: int| self@.contains(m) <==> old(self)@.union(
                other@.filter(|i: int| i < cap),
            ).contains(m) by {
                if 0 <= m < self.capacity() {
                    lemma_bit_or(old(self).words@[m / 64], other.words@[m / 64], (m % 64) as u64);
                }
            }
            assert(self@ =~= old(self)@.union(other@.filter(|i: int| i < cap)));
        }
    }

    /// The number of members.
    pub fn count(&self) -> (r: usize)
        requires
            self@.len() <= u32::MAX,
        ensures
            r == self@.len(),
            self.capacity() <= usize::MAX,
    {
        proof {
            use_type_invariant(self);
            lemma_count_is_len(self.words@);
        }
        let n = self.words.len();
        let mut sum: u32 = 0;
        let mut i: usize = 0;
        while i < n
            invariant
                0 <= i <= n,
                n == self.words@.len(),
                sum == popcount_sum(self.words@, i as int),
                popcount_sum(self.words@, n as int) <= u32::MAX,
            decreases n - i,
        {
            proof {
                lemma_popcount_sum_monotone(self.words@, i as int + 1, n as int);
            }
            sum = sum + word_count_ones(self.words[i]);
            i += 1;
        }
        sum as usize
    }

    /// Keeps only the members that `other` holds too, and tells whether that removed any
    /// member, and how many members are left.
    pub fn intersect_with_stats(&mut self, other: &SimpleBitSet) -> (r: (bool, usize))
        requires
            other.capacity() >= old(self).capacity(),
            old(self)@.len() <= u32::MAX,
        ensures
            final(self)@ == old(self)@.intersect(other@),
            final(self).capacity() == old(self).capacity(),
            r.0 == (final(self)@ != old(self)@),
            r.1 == final(self)@.len(),
    {
        proof {
            SimpleBitSet::lemma_members_bounded(&*self);
            vstd::set_lib::lemma_len_intersect(old(self)@, other@);
        }
        let before = self.count();
        self.intersect_with(other);
        let after = self.count();
        proof {
            SimpleBitSet::lemma_members_bounded(&*self);
            if after == before {
                assert(self@.subset_of(old(self)@));
                vstd::set_lib::lemma_subset_equality(self@, old(self)@);
            }
        }
        (after != before, after)
    }

    /// An iterator over the members, in increasing order. The set must have at least
    /// one word.
    pub fn iter(&self) -> (r: SimpleBitSetIterator<'_>)
        requires
            self.capacity() > 0,
        ensures
            r.wf(),
            r.remaining() == self@,
    {
        proof {
            use_type_invariant(self);
        }
        let it = SimpleBitSetIterator { all_words: self.words.as_slice(), cur_word: self.words[0], word_idx: 0 };
        proof {
            assert(it.remaining() =~= self@);
        }
        it
    }

    /// The members, in increasing order.
    pub fn members(&self) -> (r: Vec<usize>)
        ensures
            r@ == ascending(self@),
            lists_in_order(r@, self@),
            r@.to_set().map(|i: usize| i as int) == self@,
            forall|a: int, b: int| 0 <= a < b < r@.len() ==> r@[a] < r@[b],
            r@.len() == self@.len(),
    {
        proof {
            use_type_invariant(self);
        }
        let mut out: Vec<usize> = Vec::new();
        if self.words.len() == 0 {
            proof {
                SimpleBitSet::lemma_members_bounded(self);
                assert(self@ =~= Set::<int>::empty());
                assert(out@.to_set().map(|i: usize| i as int) =~= Set::<int>::empty());
                lemma_members_listed(out@, self@);
            }
            return out;
        }
        let mut it = self.iter();
        proof {
            SimpleBitSet::lemma_members_bounded(self);
        }
        loop
            invariant
                it.wf(),
                it.remaining().subset_of(self@),
                self@ == it.remaining() + out@.to_set().map(|i: usize| i as int),
                forall|a: int, b: int| 0 <= a < b < out@.len() ==> out@[a] < out@[b],
                forall|a: int, m: int| 0 <= a < out@.len() && it.remaining().contains(m) ==> out@[a] < m,
                out@.no_duplicates(),
                out@.len() + it.remaining().len() == self@.len(),
                self@.finite(),
            decreases it.remaining().len(),
        {
            let ghost before = it.remaining();
            proof {
                vstd::set_lib::lemma_len_subset(before, self@);
            }
            match it.next() {
                Some(m) => {
                    proof {
                        assert(before.contains(m as int));
                        lemma_push_to_set(out@, m);
                        assert(!out@.contains(m)) by {
                            if out@.contains(m) {
                                let a = choose|a: int| 0 <= a < out@.len() && out@[a] == m;
                                assert(out@[a] < m);
                            }
                        }
                    }
                    out.push(m);
                    proof {
                        assert(self@ =~= it.remaining() + out@.to_set().map(|i: usize| i as int));
                    }
                },
                None => {
                    proof {
                        assert(self@ =~= out@.to_set().map(|i: usize| i as int));
                        out@.unique_seq_to_set();
                        lemma_map_usize_len(out@.to_set());
                        lemma_members_listed(out@, self@);
                    }
                    return out;
                },
            }
        }
    }
}

proof fn lemma_members_listed(q: Seq<usize>, s: Set<int>)
    requires
        q.to_set().map(|i: usize| i as int) == s,
        forall|a: int, b: int| 0 <= a < b < q.len() ==> q[a] < q[b],
    ensures
        lists_in_order(q, s),
        q == ascending(s),
{
    assert forall|x: int| s.contains(x) <==> exists|k: int| 0 <= k < q.len() && q[k] as int == x by {
        if s.contains(x) {
            let y = choose|y: usize| q.to_set().contains(y) && y as int == x;
            let k = choose|k: int| 0 <= k < q.len() && q[k] == y;
            assert(q[k] as int == x);
        }
        if exists|k: int| 0 <= k < q.len() && q[k] as int == x {
            let k = choose|k: int| 0 <= k < q.len() && q[k] as int == x;
            assert(q.to_set().contains(q[k]));
        }
    }
    assert(lists_in_order(q, s));
    let c = ascending(s);
    assert(lists_in_order(c, s));
    lemma_lists_in_order_unique(q, c, s);
}

proof fn lemma_popcount_sum_monotone(words: Seq<u64>, i: int, j: int)
    requires
        0 <= i <= j,
    ensures
        popcount_sum(words, i) <= popcount_sum(words, j),
    decreases j - i,
{
    if i < j {
        lemma_popcount_sum_monotone(words, i, j - 1);
    }
}

proof fn lemma_push_to_set(s: Seq<usize>, m: usize)
    ensures
        s.push(m).to_set().map(|i: usize| i as int) == s.to_set().map(|i: usize| i as int).insert(
            m as int,
        ),
{
    let a = s.push(m).to_set().map(|i: usize| i as int);
    let b = s.to_set().map(|i: usize| i as int).insert(m as int);
    assert forall|x: int| a.contains(x) <==> b.contains(x) by {
        if a.contains(x) {
            let y = choose|y: usize| s.push(m).to_set().contains(y) && y as int == x;
            let k = choose|k: int| 0 <= k < s.push(m).len() && s.push(m)[k] == y;
            if k < s.len() {
                assert(s.to_set().contains(y));
            }
        }
        if b.contains(x) {
            if x == m as int {
                assert(s.push(m)[s.len() as int] == m);
                assert(s.push(m).to_set().contains(m));
            } else {
                let y = choose|y: usize| s.to_set().contains(y) && y as int == x;
                let k = choose|k: int| 0 <= k < s.len() && s[k] == y;
                assert(s.push(m)[k] == y);
                assert(s.push(m).to_set().contains(y));
            }
        }
    }
    assert(a =~= b);
}

proof fn lemma_map_usize_len(s: Set<usize>)
    requires
        s.finite(),
    ensures
        s.map(|i: usize| i as int).len() == s.len(),
        s.map(|i: usize| i as int).finite(),
{
    let f = |i: usize| i as int;
    assert(vstd::relations::injective_on(f, s));
    vstd::set_lib::lemma_map_size(s, s.map(f), f);
}

/// A run of [`SimpleBitSetIterator::next`] calls that each returned a member lists the
/// members it started from once each, in increasing order: `rems[k]` is what remained
/// before call `k`, which returned `outs[k]` (what each such call ensures). Every member
/// not listed is still to come, and once nothing remains, which is when `next` returns
/// `None` (and keeps returning it), the run has listed the set exactly.
pub proof fn lemma_iteration_run(start: Set<int>, outs: Seq<usize>, rems: Seq<Set<int>>)
    requires
        rems.len() == outs.len() + 1,
        rems[0] == start,
        forall|k: int|
            0 <= k < outs.len() ==> {
                &&& (#[trigger] rems[k]).contains(outs[k] as int)
                &&& forall|i: int| rems[k].contains(i) ==> outs[k] <= i
                &&& rems[k + 1] == rems[k].remove(outs[k] as int)
            },
    ensures
        forall|i: int, j: int| 0 <= i < j < outs.len() ==> outs[i] < outs[j],
        forall|k: int, x: int| 0 <= k < outs.len() && rems.last().contains(x) ==> outs[k] < x,
        forall|x: int|
            start.contains(x) <==> (exists|k: int| 0 <= k < outs.len() && outs[k] as int == x) || rems.last().contains(x),
        rems.last().is_empty() ==> lists_in_order(outs, start),
    decreases outs.len(),
{
    let n = outs.len() as int;
    if n > 0 {
        let outs0 = outs.drop_last();
        let rems0 = rems.drop_last();
        assert forall|k: int| 0 <= k < outs0.len() implies {
            &&& (#[trigger] rems0[k]).contains(outs0[k] as int)
            &&& forall|i: int| rems0[k].contains(i) ==> outs0[k] <= i
            &&& rems0[k + 1] == rems0[k].remove(outs0[k] as int)
        } by {
            assert(rems0[k] == rems[k] && rems0[k + 1] == rems[k + 1] && outs0[k] == outs[k]);
            assert(rems[k].contains(outs[k] as int));
        }
        lemma_iteration_run(start, outs0, rems0);
        let last = rems[n - 1];
        assert(rems0.last() == last);
        assert(last.contains(outs[n - 1] as int));
        assert forall|i: int, j: int| 0 <= i < j < outs.len() implies outs[i] < outs[j] by {
            if j < n - 1 {
                assert(outs0[i] < outs0[j]);
            } else {
                assert(outs0[i] < outs[n - 1]);
            }
        }
        assert forall|k: int, x: int| 0 <= k < outs.len() && rems.last().contains(x) implies outs[k] < x by {
            assert(last.contains(x));
            assert(rems[n - 1].contains(x));
            if k < n - 1 {
                assert(outs0[k] < x);
            }
        }
        assert forall|x: int| start.contains(x) <==> (exists|k: int| 0 <= k < outs.len() && outs[k] as int == x)
            || rems.last().contains(x) by {
            if start.contains(x) {
                if !rems.last().contains(x) {
                    if last.contains(x) {
                        assert(outs[n - 1] as int == x);
                    } else {
                        let k = choose|k: int| 0 <= k < outs0.len() && outs0[k] as int == x;
                        assert(outs[k] as int == x);
                    }
                }
            }
            if exists|k: int| 0 <= k < outs.len() && outs[k] as int == x {
                let k = choose|k: int| 0 <= k < outs.len() && outs[k] as int == x;
                if k < n - 1 {
                    assert(outs0[k] as int == x);
                }
            }
        }
    } else {
        assert forall|x: int| start.contains(x) <==> (exists|k: int| 0 <= k < outs.len() && outs[k] as int == x)
            || rems.last().contains(x) by {}
    }
}

/// An iterator over the members of a [`SimpleBitSet`], in increasing order.
pub struct SimpleBitSetIterator<'a> {
    all_words: &'a [u64],
    cur_word: u64,
    word_idx: usize,
}

impl<'a> SimpleBitSetIterator<'a> {
    /// The members that the iterator has still to yield.
    pub closed spec fn remaining(&self) -> Set<int> {
        Set::new(
            |i: int|
                {
                    ||| (64 * self.word_idx <= i < 64 * self.word_idx + 64 && bit_of(
                        self.cur_word,
                        (i - 64 * self.word_idx) as u64,
                    ))
                    ||| (64 * (self.word_idx + 1) <= i < 64 * self.all_words@.len()
                        && bit_of(self.all_words@[i / 64], (i % 64) as u64))
                },
        )
    }

    /// The iterator can still be asked for its next member.
    pub closed spec fn wf(&self) -> bool {
        &&& 64 * self.all_words@.len() <= usize::MAX
        &&& self.word_idx < self.all_words@.len() || (self.word_idx == self.all_words@.len()
            && self.cur_word == 0)
    }

    /// Whatever is left to yield is finite.
    pub proof fn lemma_remaining_finite(&self)
        ensures
            self.remaining().finite(),
    {
        let r = vstd::set_lib::set_int_range(0, 64 * self.word_idx + 64 + 64 * self.all_words@.len());
        vstd::set_lib::lemma_int_range(0, 64 * self.word_idx + 64 + 64 * self.all_words@.len());
        assert(self.remaining().subset_of(r));
        vstd::set_lib::lemma_len_subset(self.remaining(), r);
    }

    /// The least member not yet yielded, or `None` when every member has been yielded.
    pub fn next(&mut self) -> (r: Option<usize>)
        requires
            old(self).wf(),
        ensures
            r is None <==> old(self).remaining().is_empty(),
            r matches Some(m) ==> {
                &&& old(self).remaining().contains(m as int)
                &&& forall|i: int| old(self).remaining().contains(i) ==> m <= i
                &&& final(self).remaining() == old(self).remaining().remove(m as int)
                &&& final(self).wf()
            },
            r is None ==> final(self).remaining().is_empty(),
            final(self).wf(),
    {
        let ghost start = self.remaining();
        while self.cur_word == 0
            invariant
                64 * self.all_words@.len() <= usize::MAX,
                self.all_words == old(self).all_words,
                self.word_idx <= self.all_words@.len(),
                self.word_idx == self.all_words@.len() ==> self.cur_word == 0,
                self.remaining() == start,
                start == old(self).remaining(),
            decreases self.all_words@.len() - self.word_idx,
        {
            proof {
                assert forall|j: u64| j < 64 implies !bit_of(0u64, j) by {
                    lemma_bit_zero_max(j);
                }
            }
            let ghost prev = *self;
            if self.word_idx + 1 < self.all_words.len() {
                self.word_idx += 1;
                self.cur_word = self.all_words[self.word_idx];
                proof {
                    assert forall|i: int| self.remaining().contains(i) <==> prev.remaining().contains(i) by {
                        if 64 * prev.word_idx <= i < 64 * prev.word_idx + 64 {
                            assert(!bit_of(0u64, (i - 64 * prev.word_idx) as u64));
                        }
                        if 64 * self.word_idx <= i < 64 * self.word_idx + 64 {
                            assert(i / 64 == self.word_idx as int) by {
                                vstd::arithmetic::div_mod::lemma_fundamental_div_mod_converse(
                                    i,
                                    64,
                                    self.word_idx as int,
                                    i - 64 * self.word_idx,
                                );
                            }
                        }
                    }
                    assert(self.remaining() =~= prev.remaining());
                }
            } else {
                self.word_idx = self.all_words.len();
                proof {
                    assert forall|i: int| !prev.remaining().contains(i) by {
                        if 64 * prev.word_idx <= i < 64 * prev.word_idx + 64 {
                            assert(!bit_of(0u64, (i - 64 * prev.word_idx) as u64));
                        }
                    }
                    assert forall|i: int| !self.remaining().contains(i) by {
                        if 64 * self.word_idx <= i < 64 * self.word_idx + 64 {
                            assert(!bit_of(0u64, (i - 64 * self.word_idx) as u64));
                        }
                    }
                    assert(prev.remaining() =~= Set::<int>::empty());
                    assert(self.remaining() =~= Set::<int>::empty());
                }
                return None;
            }
        }
        let w = self.cur_word;
        let next_bit_idx = w.trailing_zeros();
        let ghost prev = *self;
        proof {
            lemma_clear_lowest(w, 0);
        }
        self.cur_word = w & (w - 1);
        let m = next_bit_idx as usize + self.word_idx * 64;
        proof {
            let t = next_bit_idx as u64;
            let base = 64 * prev.word_idx;
            assert(prev.remaining().contains(m as int)) by {
                assert((m as int - base) as u64 == t);
            }
            assert forall|i: int| prev.remaining().contains(i) implies m <= i by {
                if base <= i < base + 64 {
                    lemma_clear_lowest(w, (i - base) as u64);
                }
            }
            assert forall|i: int| self.remaining().contains(i) <==> prev.remaining().remove(
                m as int,
            ).contains(i) by {
                if base <= i < base + 64 {
                    lemma_clear_lowest(w, (i - base) as u64);
                }
            }
            assert(self.remaining() =~= prev.remaining().remove(m as int));
        }
        Some(m)
    }
}

} // verus!
