//! The tags that the directory recognises, and the group each belongs to.
use crate::tags::{chars_le, lower_of, Tag, Tags};
use vstd::prelude::*;

verus! {

/// A group of tags, shown together.
#[derive(Debug, Clone, Copy, PartialEq, Eq, Structural, Hash)]
pub enum TagGroup {
    Sex,
    Age,
    GeoLocation,
}

impl TagGroup {
    /// The key under which the display name of this group is translated.
    pub fn translation_key(&self) -> (r: &'static str)
        ensures
            r@ == tag_group_key(*self),
    {
        match self {
            TagGroup::Sex => "tag-group-sex",
            TagGroup::Age => "tag-group-age",
            TagGroup::GeoLocation => "tag-group-geolocation",
        }
    }
}

pub open spec fn tag_group_key(g: TagGroup) -> Seq<char> {
    match g {
        TagGroup::Sex => "tag-group-sex"@,
        TagGroup::Age => "tag-group-age"@,
        TagGroup::GeoLocation => "tag-group-geolocation"@,
    }
}

/// Every tag group.
pub fn all_tag_groups() -> (r: Vec<TagGroup>)
    ensures
        r@ == seq![TagGroup::Sex, TagGroup::Age, TagGroup::GeoLocation],
{
    let r = vec![TagGroup::Sex, TagGroup::Age, TagGroup::GeoLocation];
    assert(r@ =~= seq![TagGroup::Sex, TagGroup::Age, TagGroup::GeoLocation]);
    r
}

/// The recognised tags, each with its group, if it has one.
pub open spec fn catalogue() -> Seq<(Seq<char>, Option<TagGroup>)> {
    seq![
        ("Male"@, Some(TagGroup::Sex)),
        ("Female"@, Some(TagGroup::Sex)),
        ("Adult"@, Some(TagGroup::Age)),
        ("Kid"@, Some(TagGroup::Age)),
        ("Teenagers"@, Some(TagGroup::Age)),
        ("Elderly"@, Some(TagGroup::Age)),
        ("Trojmiasto"@, Some(TagGroup::GeoLocation)),
        ("Pomorskie"@, Some(TagGroup::GeoLocation)),
        ("Warszawa"@, Some(TagGroup::GeoLocation)),
        ("Hostel"@, None),
        ("LGBT"@, None),
        ("domestic abuse"@, None),
        ("homelessness crisis"@, None),
        ("disability"@, None),
        ("suicidal crisis"@, None),
        ("discrimination"@, None),
        ("law"@, None),
        ("social issues"@, None),
        ("sexual abuse"@, None),
        ("victims of crime"@, None),
        ("parenting"@, None),
        ("alcohol abuse"@, None),
        ("substance abuse"@, None),
        ("NFZ"@, None),
        ("NGO"@, None),
        ("griving"@, None),
        ("financial issues"@, None),
        ("unemployment"@, None),
        ("couples"@, None),
        ("long-term therapy"@, None),
        ("mental illness"@, None),
    ]
}

fn catalogue_entries() -> (r: Vec<(&'static str, Option<TagGroup>)>)
    ensures
        r@.len() == catalogue().len(),
        forall|i: int| 0 <= i < r@.len() ==> (#[trigger] r@[i]).0@ == catalogue()[i].0 && r@[i].1 == catalogue()[i].1,
{
    let r = vec![
        ("Male", Some(TagGroup::Sex)),
        ("Female", Some(TagGroup::Sex)),
        ("Adult", Some(TagGroup::Age)),
        ("Kid", Some(TagGroup::Age)),
        ("Teenagers", Some(TagGroup::Age)),
        ("Elderly", Some(TagGroup::Age)),
        ("Trojmiasto", Some(TagGroup::GeoLocation)),
        ("Pomorskie", Some(TagGroup::GeoLocation)),
        ("Warszawa", Some(TagGroup::GeoLocation)),
        ("Hostel", None),
        ("LGBT", None),
        ("domestic abuse", None),
        ("homelessness crisis", None),
        ("disability", None),
        ("suicidal crisis", None),
        ("discrimination", None),
        ("law", None),
        ("social issues", None),
        ("sexual abuse", None),
        ("victims of crime", None),
        ("parenting", None),
        ("alcohol abuse", None),
        ("substance abuse", None),
        ("NFZ", None),
        ("NGO", None),
        ("griving", None),
        ("financial issues", None),
        ("unemployment", None),
        ("couples", None),
        ("long-term therapy", None),
        ("mental illness", None),
    ];
    r
}

/// The names of the recognised tags whose group `selected` accepts: every
/// one where it is `None`, else those whose group is the one it holds.
pub open spec fn catalogue_names(selected: Option<Option<TagGroup>>) -> Set<Seq<char>> {
    Set::new(
        |n: Seq<char>|
            exists|i: int|
                0 <= i < catalogue().len() && #[trigger] catalogue()[i].0 == n && (selected is None
                    || catalogue()[i].1 == selected->0),
    )
}

fn collect_tags(selected: Option<Option<TagGroup>>) -> (r: Tags)
    ensures
        r@ == catalogue_names(selected),
{
    let entries = catalogue_entries();
    let mut r = Tags::new();
    let mut k: usize = 0;
    while k < entries.len()
        invariant
            k <= entries@.len(),
            entries@.len() == catalogue().len(),
            forall|i: int| 0 <= i < entries@.len() ==> (#[trigger] entries@[i]).0@ == catalogue()[i].0 && entries@[i].1 == catalogue()[i].1,
            r@ == Set::new(
                |n: Seq<char>|
                    exists|i: int|
                        0 <= i < k && #[trigger] catalogue()[i].0 == n && (selected is None
                            || catalogue()[i].1 == selected->0),
            ),
        decreases entries@.len() - k,
    {
        let (name, group) = entries[k];
        let ghost before = r@;
        let keep = match selected {
            None => true,
            Some(g) => group == g,
        };
        if keep {
            r.define_tag(name);
        }
        let ghost next = Set::new(
            |n: Seq<char>|
                exists|i: int|
                    0 <= i < k + 1 && #[trigger] catalogue()[i].0 == n && (selected is None
                        || catalogue()[i].1 == selected->0),
        );
        assert forall|n: Seq<char>| r@.contains(n) == next.contains(n) by {
            if next.contains(n) {
                let i = choose|i: int|
                    0 <= i < k + 1 && #[trigger] catalogue()[i].0 == n && (selected is None
                        || catalogue()[i].1 == selected->0);
                if i < k {
                    assert(before.contains(n));
                }
            }
            if r@.contains(n) && !before.contains(n) {
                assert(catalogue()[k as int].0 == n);
            }
        }
        assert(r@ =~= next);
        k = k + 1;
    }
    assert(r@ =~= catalogue_names(selected));
    r
}

/// Every recognised tag.
pub fn get_all_supported_tags() -> (r: Tags)
    ensures
        r@ == catalogue_names(None),
{
    collect_tags(None)
}

/// The recognised tags that belong to no group.
pub fn get_all_supported_tags_without_group() -> (r: Tags)
    ensures
        r@ == catalogue_names(Some(None)),
{
    collect_tags(Some(None))
}

/// The recognised tags of `tag_group`.
pub fn get_all_supported_tags_of_group(tag_group: &TagGroup) -> (r: Tags)
    ensures
        r@ == catalogue_names(Some(Some(*tag_group))),
{
    collect_tags(Some(Some(*tag_group)))
}

/// Every recognised tag, ordered by lower-cased name.
pub fn get_all_supported_tags_in_order() -> (r: Vec<Tag>)
    ensures
        r@.map_values(|t: Tag| t@).to_set() == catalogue_names(None),
        r@.len() == catalogue_names(None).len(),
        forall|i: int, j: int|
            0 <= i < j < r@.len() ==> chars_le(lower_of((#[trigger] r@[i])@), lower_of((#[trigger] r@[j])@)),
{
    get_all_supported_tags().get_all_tags_in_order()
}

/// The recognised tags of `my_tags`, ordered by lower-cased name, each with
/// whether `all_tags` holds it too.
pub fn get_matching_tags(all_tags: &Tags, my_tags: &Tags) -> (r: Vec<(Tag, bool)>)
    ensures
        r@.map_values(|e: (Tag, bool)| e.0@).to_set() == my_tags@.intersect(catalogue_names(None)),
        r@.map_values(|e: (Tag, bool)| e.0@).no_duplicates(),
        forall|i: int| 0 <= i < r@.len() ==> (#[trigger] r@[i]).1 == all_tags@.contains(r@[i].0@),
        forall|i: int, j: int|
            0 <= i < j < r@.len() ==> chars_le(lower_of((#[trigger] r@[i]).0@), lower_of((#[trigger] r@[j]).0@)),
{
    let supported = get_all_supported_tags();
    let ordered = my_tags.get_all_tags_in_order();
    let mut r: Vec<(Tag, bool)> = Vec::new();
    let ghost names = ordered@.map_values(|t: Tag| t@);
    let ghost mut idx: Seq<int> = Seq::empty();
    let mut i: usize = 0;
    assert(names.take(0).to_set().intersect(catalogue_names(None)) =~= Set::<Seq<char>>::empty());
    assert(r@.map_values(|e: (Tag, bool)| e.0@).to_set() =~= Set::<Seq<char>>::empty());
    while i < ordered.len()
        invariant
            i <= ordered@.len(),
            names == ordered@.map_values(|t: Tag| t@),
            names.to_set() == my_tags@,
            names.no_duplicates(),
            supported@ == catalogue_names(None),
            forall|a: int, b: int|
                0 <= a < b < ordered@.len() ==> chars_le(lower_of((#[trigger] ordered@[a])@), lower_of((#[trigger] ordered@[b])@)),
            forall|k: int| 0 <= k < r@.len() ==> (#[trigger] r@[k]).1 == all_tags@.contains(r@[k].0@),
            idx.len() == r@.len(),
            forall|k: int| 0 <= k < r@.len() ==> 0 <= #[trigger] idx[k] < i && r@[k].0@ == ordered@[idx[k]]@,
            forall|a: int, b: int| 0 <= a < b < idx.len() ==> #[trigger] idx[a] < #[trigger] idx[b],
            r@.map_values(|e: (Tag, bool)| e.0@).to_set() == names.take(i as int).to_set().intersect(catalogue_names(None)),
        decreases ordered@.len() - i,
    {
        proof {
            crate::tags::lemma_take_succ_to_set(names, i as int);
        }
        let ghost before = r@.map_values(|e: (Tag, bool)| e.0@);
        if supported.has_tag(&ordered[i]) {
            let accepted = all_tags.has_tag(&ordered[i]);
            r.push((ordered[i].duplicate(), accepted));
            proof {
                idx = idx.push(i as int);
                assert(r@.map_values(|e: (Tag, bool)| e.0@) =~= before.push(names[i as int]));
                before.lemma_push_to_set_commute(names[i as int]);
            }
        } else {
            assert(r@.map_values(|e: (Tag, bool)| e.0@) =~= before);
        }
        assert(r@.map_values(|e: (Tag, bool)| e.0@).to_set() =~= names.take(i + 1).to_set().intersect(catalogue_names(None)));
        i = i + 1;
    }
    assert(names.take(i as int) =~= names);
    assert forall|a: int, b: int| 0 <= a < b < r@.len() implies chars_le(lower_of((#[trigger] r@[a]).0@), lower_of((#[trigger] r@[b]).0@)) by {
        assert(idx[a] < idx[b]);
        assert(chars_le(lower_of(ordered@[idx[a]]@), lower_of(ordered@[idx[b]]@)));
    }
    let ghost rn = r@.map_values(|e: (Tag, bool)| e.0@);
    assert forall|a: int, b: int| 0 <= a < rn.len() && 0 <= b < rn.len() && a != b implies rn[a] != rn[b] by {
        if a < b {
            assert(idx[a] < idx[b]);
        } else {
            assert(idx[b] < idx[a]);
        }
        assert(names[idx[a]] != names[idx[b]]);
    }
    r
}

/// The group of the first entry of `entries` named `name`, if any.
pub open spec fn group_in(entries: Seq<(Seq<char>, Option<TagGroup>)>, name: Seq<char>) -> Option<
    TagGroup,
>
    decreases entries.len(),
{
    if entries.len() == 0 {
        None
    } else if entries[0].0 == name {
        entries[0].1
    } else {
        group_in(entries.drop_first(), name)
    }
}

impl Tag {
    /// The group of this tag, where it is a recognised tag with a group.
    pub fn get_associated_group(&self) -> (r: Option<TagGroup>)
        ensures
            r == group_in(catalogue(), self@),
    {
        let entries = catalogue_entries();
        let name = self.name.as_str();
        let mut k: usize = 0;
        assert(catalogue().skip(0) =~= catalogue());
        while k < entries.len()
            invariant
                k <= entries@.len(),
                entries@.len() == catalogue().len(),
                forall|i: int| 0 <= i < entries@.len() ==> (#[trigger] entries@[i]).0@ == catalogue()[i].0 && entries@[i].1 == catalogue()[i].1,
                group_in(catalogue(), self@) == group_in(catalogue().skip(k as int), self@),
                name@ == self@,
            decreases entries@.len() - k,
        {
            let (entry_name, group) = entries[k];
            assert(catalogue().skip(k as int)[0] == catalogue()[k as int]);
            assert(catalogue().skip(k as int).drop_first() =~= catalogue().skip(k + 1));
            if String::from_str(entry_name) == String::from_str(name) {
                return group;
            }
            k = k + 1;
        }
        assert(catalogue().skip(k as int).len() == 0);
        None
    }
}

} // verus!
