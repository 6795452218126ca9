//! Tags and tag sets, with the overlap score of one set against a preference.
use vstd::prelude::*;
use vstd::seq_lib::seq_to_set_is_finite;

verus! {

/// A single attribute of a location, identified by its name.
#[derive(Clone, Debug)]
pub struct Tag {
    pub name: String,
}

impl View for Tag {
    type V = Seq<char>;

    open spec fn view(&self) -> Seq<char> {
        self.name@
    }
}

impl Tag {
    /// The tag named `name`.
    pub fn new(name: String) -> (r: Tag)
        ensures
            r@ == name@,
    {
        Tag { name }
    }

    /// A copy of this tag.
    pub fn duplicate(&self) -> (r: Tag)
        ensures
            r@ == self@,
    {
        Tag { name: self.name.clone() }
    }

    /// The tag's name.
    pub fn to_string(&self) -> (r: String)
        ensures
            r@ == self@,
    {
        self.name.clone()
    }
}

/// `s.take(i + 1)` holds the elements of `s.take(i)` and `s[i]`.
pub proof fn lemma_take_succ_to_set<A>(s: Seq<A>, i: int)
    requires
        0 <= i < s.len(),
    ensures
        s.take(i + 1).to_set() == s.take(i).to_set().insert(s[i]),
{
    assert(s.take(i + 1) =~= s.take(i).push(s[i]));
    s.take(i).lemma_push_to_set_commute(s[i]);
}

/// The overlap of `tags` against `preference`, as a fraction
/// (matched, out of): how many of the preference's tags `tags` holds, out of
/// how many the preference holds. An empty preference is fully met: 1 of 1.
pub open spec fn overlap_of(tags: Set<Seq<char>>, preference: Set<Seq<char>>) -> (nat, nat) {
    if preference.len() == 0 {
        (1, 1)
    } else {
        (preference.intersect(tags).len(), preference.len())
    }
}

/// An overlap score always lies in [0, 1]: it matches at most as many tags as
/// it counts, and it counts at least one.
pub proof fn lemma_overlap_in_unit_range(tags: Set<Seq<char>>, preference: Set<Seq<char>>)
    requires
        tags.finite(),
        preference.finite(),
    ensures
        overlap_of(tags, preference).0 <= overlap_of(tags, preference).1,
        overlap_of(tags, preference).1 > 0,
{
    if preference.len() != 0 {
        vstd::set_lib::lemma_len_intersect(preference, tags);
    }
}

/// A non-empty tag set fully overlaps itself: the score is 1.
pub proof fn lemma_overlap_with_itself(tags: Set<Seq<char>>)
    requires
        tags.finite(),
        tags.len() > 0,
    ensures
        overlap_of(tags, tags).0 == overlap_of(tags, tags).1,
{
    assert(tags.intersect(tags) =~= tags);
}

/// An empty preference is met by every tag set: the score is exactly 1 of 1.
pub proof fn lemma_overlap_with_empty_preference(tags: Set<Seq<char>>)
    ensures
        overlap_of(tags, Set::<Seq<char>>::empty()) == (1nat, 1nat),
{
}

/// Defining a tag makes it present, undefining it makes it absent, and
/// defining it a second time leaves the set as the first definition left it.
pub proof fn lemma_define_undefine(tags: Set<Seq<char>>, name: Seq<char>)
    ensures
        tags.insert(name).contains(name),
        !tags.remove(name).contains(name),
        tags.insert(name).insert(name) == tags.insert(name),
{
    assert(tags.insert(name).insert(name) =~= tags.insert(name));
}

/// An overlap score: `matched` out of `total`, a fraction in [0, 1].
#[derive(Clone, Copy, Debug, PartialEq, Eq, Structural)]
pub struct Overlap {
    pub matched: usize,
    pub total: usize,
}

impl View for Overlap {
    type V = (nat, nat);

    open spec fn view(&self) -> (nat, nat) {
        (self.matched as nat, self.total as nat)
    }
}

/// Whether the fraction `a` is strictly greater than the fraction `b`.
pub open spec fn exceeds(a: (nat, nat), b: (nat, nat)) -> bool {
    a.0 * b.1 > b.0 * a.1
}

impl Overlap {
    /// Whether this score is strictly greater than `other`, compared as fractions.
    pub fn exceeds(&self, other: &Overlap) -> (r: bool)
        ensures
            r == exceeds(self@, other@),
    {
        let a: u128 = self.matched as u128;
        let b: u128 = other.total as u128;
        let c: u128 = other.matched as u128;
        let d: u128 = self.total as u128;
        assert(a * b <= u128::MAX && c * d <= u128::MAX) by (nonlinear_arith)
            requires
                a <= u64::MAX,
                b <= u64::MAX,
                c <= u64::MAX,
                d <= u64::MAX,
        ;
        a * b > c * d
    }
}

/// A set of tags, each name at most once.
#[derive(Debug)]
pub struct Tags {
    tags: Vec<Tag>,
}

impl View for Tags {
    type V = Set<Seq<char>>;

    closed spec fn view(&self) -> Set<Seq<char>> {
        self.names().to_set()
    }
}

impl Tags {
    /// The names of the tags, in the order they are stored.
    closed spec fn names(&self) -> Seq<Seq<char>> {
        self.tags@.map_values(|t: Tag| t@)
    }

    #[verifier::type_invariant]
    closed spec fn inv(&self) -> bool {
        self.names().no_duplicates()
    }

    /// A tag set is finite.
    pub proof fn lemma_finite(&self)
        ensures
            self@.finite(),
    {
        seq_to_set_is_finite(self.names());
    }

    proof fn lemma_len(&self)
        requires
            self.inv(),
        ensures
            self@.finite(),
            self@.len() == self.tags@.len(),
    {
        seq_to_set_is_finite(self.names());
        self.names().unique_seq_to_set();
    }

    /// The empty set.
    pub fn new() -> (r: Tags)
        ensures
            r@ == Set::<Seq<char>>::empty(),
    {
        let r = Tags { tags: Vec::new() };
        assert(r.names() =~= Seq::<Seq<char>>::empty());
        r
    }

    /// The set of the given names.
    pub fn new_tags(items: &[&str]) -> (r: Tags)
        ensures
            r@ == items@.map_values(|s: &str| s@).to_set(),
    {
        let ghost all = items@.map_values(|s: &str| s@);
        let mut r = Tags::new();
        let mut i: usize = 0;
        while i < items.len()
            invariant
                i <= items@.len(),
                all == items@.map_values(|s: &str| s@),
                r@ == all.take(i as int).to_set(),
            decreases items@.len() - i,
        {
            proof {
                lemma_take_succ_to_set(all, i as int);
            }
            r.define_tag(items[i]);
            i = i + 1;
        }
        assert(all.take(i as int) =~= all);
        r
    }

    /// The set of the given tags.
    pub fn from_tags(tags: Vec<Tag>) -> (r: Tags)
        ensures
            r@ == tags@.map_values(|t: Tag| t@).to_set(),
    {
        let ghost all = tags@.map_values(|t: Tag| t@);
        let mut r = Tags::new();
        let mut i: usize = 0;
        while i < tags.len()
            invariant
                i <= tags@.len(),
                all == tags@.map_values(|t: Tag| t@),
                r@ == all.take(i as int).to_set(),
            decreases tags@.len() - i,
        {
            proof {
                lemma_take_succ_to_set(all, i as int);
            }
            r.define_tag(tags[i].name.as_str());
            i = i + 1;
        }
        assert(all.take(i as int) =~= all);
        r
    }

    /// Every tag of the set, each once.
    pub fn get_all_tags(&self) -> (r: Vec<Tag>)
        ensures
            r@.map_values(|t: Tag| t@).to_set() == self@,
            r@.map_values(|t: Tag| t@).no_duplicates(),
            r@.len() == self@.len(),
    {
        proof {
            use_type_invariant(self);
            self.lemma_len();
        }
        let mut r: Vec<Tag> = Vec::new();
        let mut i: usize = 0;
        while i < self.tags.len()
            invariant
                i <= self.tags@.len(),
                r@.len() == i,
                forall|k: int| 0 <= k < i ==> r@[k]@ == self.tags@[k]@,
            decreases self.tags@.len() - i,
        {
            r.push(self.tags[i].duplicate());
            i = i + 1;
        }
        assert(r@.map_values(|t: Tag| t@) =~= self.names());
        r
    }

    /// Moves the stored tags out, leaving the set empty.
    fn take_tags(&mut self) -> (r: Vec<Tag>)
        ensures
            r@ == old(self).tags@,
    {
        let mut taken = Tags::new();
        std::mem::swap(self, &mut taken);
        let Tags { tags } = taken;
        tags
    }

    /// Where the tag named `name` is stored, if it is in the set.
    fn position(&self, name: &String) -> (r: Option<usize>)
        ensures
            match r {
                Some(i) => i < self.tags@.len() && self.tags@[i as int]@ == name@ && self@.contains(
                    name@,
                ),
                None => !self@.contains(name@),
            },
    {
        let mut i: usize = 0;
        while i < self.tags.len()
            invariant
                i <= self.tags@.len(),
                forall|j: int| 0 <= j < i ==> self.tags@[j]@ != name@,
            decreases self.tags@.len() - i,
        {
            if self.tags[i].name == *name {
                assert(self.names()[i as int] == name@);
                return Some(i);
            }
            i = i + 1;
        }
        assert(!self.names().contains(name@));
        None
    }

    /// Adds the tag named `tag`, if it is not there yet, and returns it.
    pub fn define_tag(&mut self, tag: &str) -> (r: Tag)
        ensures
            final(self)@ == old(self)@.insert(tag@),
            r@ == tag@,
    {
        let name = String::from_str(tag);
        match self.position(&name) {
            Some(_) => {
                assert(self@.contains(tag@));
                assert(self@.insert(tag@) =~= self@);
            },
            None => {
                proof {
                    use_type_invariant(&*self);
                }
                let ghost old_names = self.names();
                let mut v = self.take_tags();
                v.push(Tag::new(name.clone()));
                assert(v@.map_values(|t: Tag| t@) =~= old_names.push(name@));
                assert(old_names.push(name@).no_duplicates()) by {
                    assert(!old_names.contains(name@));
                }
                *self = Tags { tags: v };
                proof {
                    assert(self.names() =~= old_names.push(name@));
                    old_names.lemma_push_to_set_commute(name@);
                }
            },
        }
        Tag::new(name)
    }

    /// Removes the tag named `tag`, if it is there, and returns it.
    pub fn undefine_tag(&mut self, tag: &str) -> (r: Tag)
        ensures
            final(self)@ == old(self)@.remove(tag@),
            r@ == tag@,
    {
        let name = String::from_str(tag);
        match self.position(&name) {
            Some(i) => {
                proof {
                    use_type_invariant(&*self);
                }
                let ghost old_names = self.names();
                let ghost old_view = self@;
                assert(old_names[i as int] == tag@);
                assert(old_names.no_duplicates());
                let mut v = self.take_tags();
                v.remove(i);
                assert(v@.map_values(|t: Tag| t@) =~= old_names.remove(i as int));
                assert(old_names.remove(i as int).no_duplicates()) by {
                    assert forall|a: int, b: int|
                        0 <= a < old_names.remove(i as int).len() && 0 <= b < old_names.remove(
                            i as int,
                        ).len() && a != b implies old_names.remove(i as int)[a]
                        != old_names.remove(i as int)[b] by {
                        let a2 = if a < i {
                            a
                        } else {
                            a + 1
                        };
                        let b2 = if b < i {
                            b
                        } else {
                            b + 1
                        };
                        assert(old_names.remove(i as int)[a] == old_names[a2]);
                        assert(old_names.remove(i as int)[b] == old_names[b2]);
                    }
                }
                *self = Tags { tags: v };
                proof {
                    assert(self.names() =~= old_names.remove(i as int));
                    assert forall|x: Seq<char>| #[trigger]
                        self@.contains(x) == old_view.remove(tag@).contains(x) by {
                        if old_names.remove(i as int).contains(x) {
                            let k = choose|k: int|
                                0 <= k < old_names.remove(i as int).len()
                                    && old_names.remove(i as int)[k] == x;
                            if k < i {
                                assert(old_names[k] == x);
                                assert(k != i);
                            } else {
                                assert(old_names[k + 1] == x);
                                assert(k + 1 != i);
                            }
                            assert(old_names.contains(x));
                            assert(x != tag@);
                        }
                        if old_view.remove(tag@).contains(x) {
                            assert(old_names.contains(x));
                            let k = choose|k: int| 0 <= k < old_names.len() && old_names[k] == x;
                            if k < i {
                                assert(old_names.remove(i as int)[k] == x);
                            } else {
                                assert(old_names.remove(i as int)[k - 1] == x);
                            }
                        }
                    }
                    assert(self@ =~= old_view.remove(tag@));
                }
            },
            None => {
                assert(self@.remove(tag@) =~= self@);
            },
        }
        Tag::new(name)
    }

    /// A copy of this set.
    pub fn duplicate(&self) -> (r: Tags)
        ensures
            r@ == self@,
    {
        proof {
            use_type_invariant(self);
        }
        let mut v: Vec<Tag> = Vec::new();
        let mut i: usize = 0;
        while i < self.tags.len()
            invariant
                i <= self.tags@.len(),
                v@.len() == i,
                forall|k: int| 0 <= k < i ==> v@[k]@ == self.tags@[k]@,
                self.names().no_duplicates(),
            decreases self.tags@.len() - i,
        {
            v.push(self.tags[i].duplicate());
            i = i + 1;
        }
        assert(v@.map_values(|t: Tag| t@) =~= self.names());
        Tags { tags: v }
    }

    /// This set with `tag` added.
    pub fn with_tag(&self, tag: &str) -> (r: Tags)
        ensures
            r@ == self@.insert(tag@),
    {
        let mut r = self.duplicate();
        r.define_tag(tag);
        r
    }

    /// This set with `tag` removed.
    pub fn without_tag(&self, tag: &str) -> (r: Tags)
        ensures
            r@ == self@.remove(tag@),
    {
        let mut r = self.duplicate();
        r.undefine_tag(tag);
        r
    }

    /// Whether `tag` is in the set.
    pub fn has_tag(&self, tag: &Tag) -> (r: bool)
        ensures
            r == self@.contains(tag@),
    {
        self.position(&tag.name).is_some()
    }

    /// Keeps only the tags that `other_tags` holds too.
    pub fn filter_by(&mut self, other_tags: &Tags)
        ensures
            final(self)@ == old(self)@.intersect(other_tags@),
    {
        *self = self.filtered_by(other_tags);
    }

    /// The tags of this set that `other_tags` holds too.
    pub fn filtered_by(&self, other_tags: &Tags) -> (r: Tags)
        ensures
            r@ == self@.intersect(other_tags@),
    {
        let ghost names = self.names();
        let mut r = Tags::new();
        let mut i: usize = 0;
        while i < self.tags.len()
            invariant
                i <= self.tags@.len(),
                names == self.names(),
                r@ == names.take(i as int).to_set().intersect(other_tags@),
            decreases self.tags@.len() - i,
        {
            proof {
                lemma_take_succ_to_set(names, i as int);
            }
            if other_tags.has_tag(&self.tags[i]) {
                r.define_tag(self.tags[i].name.as_str());
                assert(r@ =~= names.take(i + 1).to_set().intersect(other_tags@));
            } else {
                assert(r@ =~= names.take(i + 1).to_set().intersect(other_tags@));
            }
            i = i + 1;
        }
        assert(names.take(i as int) =~= names);
        r
    }

    /// Whether both sets hold the same tags.
    pub fn same_tags(&self, other: &Tags) -> (r: bool)
        ensures
            r == (self@ == other@),
    {
        proof {
            use_type_invariant(self);
            use_type_invariant(other);
            self.lemma_len();
            other.lemma_len();
        }
        if self.tags.len() != other.tags.len() {
            return false;
        }
        let mut i: usize = 0;
        while i < self.tags.len()
            invariant
                i <= self.tags@.len(),
                self.tags@.len() == other.tags@.len(),
                self@.finite(),
                other@.finite(),
                self@.len() == self.tags@.len(),
                other@.len() == other.tags@.len(),
                forall|j: int| 0 <= j < i ==> other@.contains(#[trigger] self.names()[j]),
            decreases self.tags@.len() - i,
        {
            if !other.has_tag(&self.tags[i]) {
                assert(self@.contains(self.names()[i as int]));
                return false;
            }
            i = i + 1;
        }
        assert(self@.subset_of(other@));
        assert(other@.subset_of(self@)) by {
            assert forall|x: Seq<char>| other@.contains(x) implies self@.contains(x) by {
                if !self@.contains(x) {
                    assert(self@.subset_of(other@.remove(x)));
                    vstd::set_lib::lemma_len_subset(self@, other@.remove(x));
                }
            }
        }
        assert(self@ =~= other@);
        true
    }

    /// How many of `other`'s tags this set holds, out of how many `other`
    /// holds; an empty `other` gives 1 of 1.
    pub fn overlap(&self, other: &Tags) -> (r: Overlap)
        ensures
            r@ == overlap_of(self@, other@),
            r.total > 0,
    {
        proof {
            use_type_invariant(self);
            use_type_invariant(other);
            other.lemma_len();
            self.lemma_len();
        }
        let ghost names = other.names();
        if other.tags.len() == 0 {
            return Overlap { matched: 1, total: 1 };
        }
        let mut matched: usize = 0;
        let mut i: usize = 0;
        assert(names.take(0).to_set().intersect(self@) =~= Set::<Seq<char>>::empty());
        while i < other.tags.len()
            invariant
                i <= other.tags@.len(),
                names == other.names(),
                names.no_duplicates(),
                self@.finite(),
                matched == names.take(i as int).to_set().intersect(self@).len(),
                matched <= i,
            decreases other.tags@.len() - i,
        {
            proof {
                lemma_take_succ_to_set(names, i as int);
                seq_to_set_is_finite(names.take(i as int));
                assert(!names.take(i as int).to_set().contains(names[i as int]));
            }
            if self.has_tag(&other.tags[i]) {
                assert(names.take(i + 1).to_set().intersect(self@) =~= names.take(
                    i as int,
                ).to_set().intersect(self@).insert(names[i as int]));
                matched = matched + 1;
            } else {
                assert(names.take(i + 1).to_set().intersect(self@) =~= names.take(
                    i as int,
                ).to_set().intersect(self@));
            }
            i = i + 1;
        }
        assert(names.take(i as int) =~= names);
        Overlap { matched, total: other.tags.len() }
    }
}

/// The lower-case form of a string.
pub uninterp spec fn lower_of(s: Seq<char>) -> Seq<char>;

/// Relies on str::to_lowercase: its result depends on the characters alone.
#[verifier::external_body]
fn lowercase(s: &str) -> (r: String)
    ensures
        r@ == lower_of(s@),
{
    s.to_lowercase()
}

/// Whether `a` comes before `b`, or equals it, comparing character by
/// character (a prefix first), as strings compare.
pub open spec fn chars_le(a: Seq<char>, b: Seq<char>) -> bool
    decreases a.len(),
{
    if a.len() == 0 {
        true
    } else if b.len() == 0 {
        false
    } else if a[0] != b[0] {
        a[0] < b[0]
    } else {
        chars_le(a.drop_first(), b.drop_first())
    }
}

proof fn lemma_chars_le_total(a: Seq<char>, b: Seq<char>)
    ensures
        chars_le(a, b) || chars_le(b, a),
    decreases a.len(),
{
    if a.len() > 0 && b.len() > 0 && a[0] == b[0] {
        lemma_chars_le_total(a.drop_first(), b.drop_first());
    }
}

proof fn lemma_chars_le_trans(a: Seq<char>, b: Seq<char>, c: Seq<char>)
    requires
        chars_le(a, b),
        chars_le(b, c),
    ensures
        chars_le(a, c),
    decreases a.len(),
{
    if a.len() > 0 && b.len() > 0 && c.len() > 0 && a[0] == b[0] && b[0] == c[0] {
        lemma_chars_le_trans(a.drop_first(), b.drop_first(), c.drop_first());
    }
}

/// Compares two strings character by character.
fn str_le(a: &str, b: &str) -> (r: bool)
    ensures
        r == chars_le(a@, b@),
{
    let n = a.unicode_len();
    let m = b.unicode_len();
    let mut i: usize = 0;
    assert(a@.skip(0) =~= a@);
    assert(b@.skip(0) =~= b@);
    while i < n && i < m
        invariant
            n == a@.len(),
            m == b@.len(),
            i <= n,
            i <= m,
            chars_le(a@, b@) == chars_le(a@.skip(i as int), b@.skip(i as int)),
        decreases n - i,
    {
        let x = a.get_char(i);
        let y = b.get_char(i);
        assert(a@.skip(i as int)[0] == x);
        assert(b@.skip(i as int)[0] == y);
        if x != y {
            return x < y;
        }
        assert(a@.skip(i as int).drop_first() =~= a@.skip(i + 1));
        assert(b@.skip(i as int).drop_first() =~= b@.skip(i + 1));
        i = i + 1;
    }
    i == n
}

/// A tag name with the key it is ordered by.
pub type Keyed = (Seq<char>, Seq<char>);

/// `s` with `x` placed before the first entry whose key is strictly greater.
pub open spec fn keyed_insert(s: Seq<Keyed>, x: Keyed) -> Seq<Keyed>
    decreases s.len(),
{
    if s.len() == 0 {
        seq![x]
    } else if !chars_le(s[0].0, x.0) {
        seq![x] + s
    } else {
        seq![s[0]] + keyed_insert(s.drop_first(), x)
    }
}

/// `s` ordered by key; entries with equal keys keep their order.
pub open spec fn keyed_sorted(s: Seq<Keyed>) -> Seq<Keyed>
    decreases s.len(),
{
    if s.len() == 0 {
        s
    } else {
        keyed_insert(keyed_sorted(s.drop_last()), s.last())
    }
}

/// Entries in non-decreasing key order.
pub open spec fn keys_ordered(s: Seq<Keyed>) -> bool {
    forall|i: int, j: int| 0 <= i < j < s.len() ==> chars_le((#[trigger] s[i]).0, (#[trigger] s[j]).0)
}

/// The tag names of `tags` paired with `keys`, position by position.
pub open spec fn keyed_names(tags: Seq<Tag>, keys: Seq<String>) -> Seq<Keyed> {
    Seq::new(tags.len(), |i: int| (keys[i]@, tags[i]@))
}

proof fn lemma_keyed_insert_at(s: Seq<Keyed>, x: Keyed, k: int)
    requires
        0 <= k <= s.len(),
        forall|j: int| 0 <= j < k ==> chars_le((#[trigger] s[j]).0, x.0),
        k < s.len() ==> !chars_le(s[k].0, x.0),
    ensures
        keyed_insert(s, x) == s.insert(k, x),
    decreases s.len(),
{
    if s.len() == 0 {
        assert(s.insert(k, x) =~= seq![x]);
    } else if k == 0 {
        assert(s.insert(k, x) =~= seq![x] + s);
    } else {
        lemma_keyed_insert_at(s.drop_first(), x, k - 1);
        assert(s.insert(k, x) =~= seq![s[0]] + s.drop_first().insert(k - 1, x));
    }
}

proof fn lemma_keyed_insert_inserts(s: Seq<Keyed>, x: Keyed)
    ensures
        exists|k: int| 0 <= k <= s.len() && keyed_insert(s, x) == s.insert(k, x),
    decreases s.len(),
{
    if s.len() == 0 {
        assert(keyed_insert(s, x) == s.insert(0, x));
    } else if !chars_le(s[0].0, x.0) {
        assert(keyed_insert(s, x) =~= s.insert(0, x));
    } else {
        lemma_keyed_insert_inserts(s.drop_first(), x);
        let k = choose|k: int| 0 <= k <= s.drop_first().len() && keyed_insert(s.drop_first(), x) == s.drop_first().insert(k, x);
        assert(keyed_insert(s, x) =~= s.insert(k + 1, x));
    }
}

proof fn lemma_keyed_insert_ordered(s: Seq<Keyed>, x: Keyed)
    requires
        keys_ordered(s),
    ensures
        keys_ordered(keyed_insert(s, x)),
    decreases s.len(),
{
    let r = keyed_insert(s, x);
    if s.len() == 0 {
    } else if !chars_le(s[0].0, x.0) {
        lemma_chars_le_total(s[0].0, x.0);
        assert forall|i: int, j: int| 0 <= i < j < r.len() implies chars_le((#[trigger] r[i]).0, (#[trigger] r[j]).0) by {
            if i == 0 {
                if j > 1 {
                    lemma_chars_le_trans(x.0, s[0].0, s[j - 1].0);
                }
            } else {
                assert(r[i] == s[i - 1] && r[j] == s[j - 1]);
            }
        }
    } else {
        let rest = s.drop_first();
        lemma_keyed_insert_ordered(rest, x);
        lemma_keyed_insert_inserts(rest, x);
        let k = choose|k: int| 0 <= k <= rest.len() && keyed_insert(rest, x) == rest.insert(k, x);
        let t = keyed_insert(rest, x);
        assert(r =~= seq![s[0]] + t);
        assert forall|i: int, j: int| 0 <= i < j < r.len() implies chars_le((#[trigger] r[i]).0, (#[trigger] r[j]).0) by {
            if i == 0 {
                assert(r[j] == t[j - 1]);
                if j - 1 == k {
                    assert(t[j - 1] == x);
                } else if j - 1 < k {
                    assert(t[j - 1] == s[j]);
                } else {
                    assert(t[j - 1] == s[j - 1]);
                }
            } else {
                assert(r[i] == t[i - 1] && r[j] == t[j - 1]);
            }
        }
    }
}

/// Ordering by key gives a permutation of the entries, in non-decreasing
/// key order.
pub proof fn lemma_keyed_sorted_is_ordered_permutation(s: Seq<Keyed>)
    ensures
        keyed_sorted(s).to_multiset() == s.to_multiset(),
        keys_ordered(keyed_sorted(s)),
    decreases s.len(),
{
    broadcast use vstd::seq_lib::to_multiset_insert, vstd::seq_lib::to_multiset_build;

    if s.len() > 0 {
        let prev = keyed_sorted(s.drop_last());
        lemma_keyed_sorted_is_ordered_permutation(s.drop_last());
        lemma_keyed_insert_inserts(prev, s.last());
        lemma_keyed_insert_ordered(prev, s.last());
        let k = choose|k: int| 0 <= k <= prev.len() && keyed_insert(prev, s.last()) == prev.insert(k, s.last());
        assert(s.drop_last().push(s.last()) =~= s);
    }
}

/// `tags` ordered by `keys`, the key of `tags[i]` being `keys[i]`; tags
/// with equal keys keep their order.
pub fn order_by_keys(tags: Vec<Tag>, keys: Vec<String>) -> (r: Vec<Tag>)
    requires
        tags@.len() == keys@.len(),
    ensures
        r@.len() == tags@.len(),
        forall|i: int| 0 <= i < r@.len() ==> #[trigger] r@[i]@ == keyed_sorted(keyed_names(tags@, keys@))[i].1,
{
    let ghost all = keyed_names(tags@, keys@);
    let mut out: Vec<Tag> = Vec::new();
    let mut out_keys: Vec<String> = Vec::new();
    let mut i: usize = 0;
    assert(all.take(0) =~= Seq::<Keyed>::empty());
    while i < tags.len()
        invariant
            i <= tags@.len(),
            tags@.len() == keys@.len(),
            all == keyed_names(tags@, keys@),
            out@.len() == i,
            out_keys@.len() == i,
            keyed_names(out@, out_keys@) == keyed_sorted(all.take(i as int)),
        decreases tags@.len() - i,
    {
        let t = tags[i].duplicate();
        let key = keys[i].clone();
        let ghost before = keyed_names(out@, out_keys@);
        let mut p: usize = 0;
        while p < out_keys.len() && str_le(out_keys[p].as_str(), key.as_str())
            invariant
                p <= out_keys@.len(),
                out_keys@.len() == out@.len(),
                before == keyed_names(out@, out_keys@),
                forall|k: int| 0 <= k < p ==> chars_le((#[trigger] before[k]).0, key@),
            decreases out_keys@.len() - p,
        {
            p = p + 1;
        }
        proof {
            assert(all.take(i + 1).drop_last() =~= all.take(i as int));
            assert(all.take(i + 1).last() == (key@, t@));
            lemma_keyed_insert_at(before, (key@, t@), p as int);
        }
        out.insert(p, t);
        out_keys.insert(p, key);
        assert(keyed_names(out@, out_keys@) =~= before.insert(p as int, (key@, t@)));
        i = i + 1;
    }
    assert(all.take(i as int) =~= all);
    out
}

/// The tag names of `tags`, each keyed by the lower-cased form of its
/// display name, `display_names[i]` being the one of `tags[i]`.
pub open spec fn display_keyed(tags: Seq<Tag>, display_names: Seq<String>) -> Seq<Keyed> {
    Seq::new(tags.len(), |i: int| (lower_of(display_names[i]@), tags[i]@))
}

/// `tags` ordered by the lower-cased form of their display names,
/// `display_names[i]` being the one of `tags[i]`: a permutation of `tags` in
/// non-decreasing key order, where tags with equal keys keep their order.
pub fn order_by_display_names(tags: Vec<Tag>, display_names: &Vec<String>) -> (r: Vec<Tag>)
    requires
        tags@.len() == display_names@.len(),
    ensures
        r@.len() == tags@.len(),
        forall|i: int|
            0 <= i < r@.len() ==> #[trigger] r@[i]@ == keyed_sorted(
                display_keyed(tags@, display_names@),
            )[i].1,
        keyed_sorted(display_keyed(tags@, display_names@)).to_multiset() == display_keyed(
            tags@,
            display_names@,
        ).to_multiset(),
        keys_ordered(keyed_sorted(display_keyed(tags@, display_names@))),
{
    let mut keys: Vec<String> = Vec::new();
    let mut i: usize = 0;
    while i < display_names.len()
        invariant
            i <= display_names@.len(),
            keys@.len() == i,
            forall|k: int| 0 <= k < i ==> #[trigger] keys@[k]@ == lower_of(display_names@[k]@),
        decreases display_names@.len() - i,
    {
        keys.push(lowercase(display_names[i].as_str()));
        i = i + 1;
    }
    assert(keyed_names(tags@, keys@) =~= display_keyed(tags@, display_names@));
    proof {
        lemma_keyed_sorted_is_ordered_permutation(display_keyed(tags@, display_names@));
    }
    order_by_keys(tags, keys)
}

impl Tags {
    /// Every tag of the set, each once, ordered by lower-cased name. Where
    /// display names come from elsewhere, [`order_by_display_names`] orders
    /// by those.
    pub fn get_all_tags_in_order(&self) -> (r: Vec<Tag>)
        ensures
            r@.map_values(|t: Tag| t@).to_set() == self@,
            r@.map_values(|t: Tag| t@).no_duplicates(),
            r@.len() == self@.len(),
            forall|i: int, j: int|
                0 <= i < j < r@.len() ==> chars_le(lower_of((#[trigger] r@[i])@), lower_of((#[trigger] r@[j])@)),
    {
        proof {
            use_type_invariant(self);
            self.lemma_len();
        }
        let tags = self.get_all_tags();
        let mut keys: Vec<String> = Vec::new();
        let mut i: usize = 0;
        while i < tags.len()
            invariant
                i <= tags@.len(),
                keys@.len() == i,
                forall|k: int| 0 <= k < i ==> #[trigger] keys@[k]@ == lower_of(tags@[k]@),
            decreases tags@.len() - i,
        {
            keys.push(lowercase(tags[i].name.as_str()));
            i = i + 1;
        }
        let ghost all = keyed_names(tags@, keys@);
        let r = order_by_keys(tags, keys);
        proof {
            let sorted = keyed_sorted(all);
            lemma_keyed_sorted_is_ordered_permutation(all);
            sorted.to_multiset_ensures();
            all.to_multiset_ensures();
            assert forall|k: int| 0 <= k < all.len() implies (#[trigger] all[k]).0 == lower_of(all[k].1) by {}
            // Every entry of the ordering is an entry of `all`, and back.
            assert forall|k: int| 0 <= k < sorted.len() implies (#[trigger] sorted[k]).0 == lower_of(sorted[k].1) by {
                assert(sorted.contains(sorted[k]));
                assert(sorted.to_multiset().count(sorted[k]) > 0);
                assert(all.to_multiset().count(sorted[k]) > 0);
                assert(all.contains(sorted[k]));
            }
            let rn = r@.map_values(|t: Tag| t@);
            assert forall|x: Seq<char>| rn.to_set().contains(x) == self@.contains(x) by {
                if rn.contains(x) {
                    let k = choose|k: int| 0 <= k < rn.len() && rn[k] == x;
                    assert(sorted[k].1 == x);
                    assert(sorted.contains(sorted[k]));
                    assert(sorted.to_multiset().count(sorted[k]) > 0);
                    assert(all.contains(sorted[k]));
                    let m = choose|m: int| 0 <= m < all.len() && all[m] == sorted[k];
                    assert(tags@.map_values(|t: Tag| t@)[m] == x);
                }
                let tn = tags@.map_values(|t: Tag| t@);
                if self@.contains(x) {
                    assert(tn.to_set().contains(x));
                    let m = choose|m: int| 0 <= m < tn.len() && tn[m] == x;
                    assert(all[m].1 == x);
                    assert(all.contains(all[m]));
                    assert(all.to_multiset().count(all[m]) > 0);
                    assert(sorted.contains(all[m]));
                    let k = choose|k: int| 0 <= k < sorted.len() && sorted[k] == all[m];
                    assert(rn[k] == x);
                }
            }
            assert(rn.to_set() =~= self@);
            rn.lemma_no_dup_set_cardinality();
        }
        r
    }
}

impl PartialEq for Tags {
    fn eq(&self, other: &Tags) -> (r: bool) {
        self.same_tags(other)
    }
}

impl vstd::std_specs::cmp::PartialEqSpecImpl for Tags {
    open spec fn obeys_eq_spec() -> bool {
        true
    }

    open spec fn eq_spec(&self, other: &Tags) -> bool {
        self@ == other@
    }
}

impl Clone for Tags {
    fn clone(&self) -> (r: Tags)
        ensures
            r@ == self@,
    {
        self.duplicate()
    }
}

} // verus!
