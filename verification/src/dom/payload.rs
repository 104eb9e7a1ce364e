//! What a node carries: a tag with its attributes, a run of text, or a comment.

use crate::text::str_eq;
use vstd::prelude::*;
use vstd::std_specs::cmp::PartialEqSpecImpl;

verus! {

pub type Text = String;

/// No two entries share a key.
pub open spec fn distinct_keys(entries: Seq<(String, String)>) -> bool {
    forall|i: int, j: int|
        0 <= i < j < entries.len() ==> (#[trigger] entries[i]).0@ != (#[trigger] entries[j]).0@
}

/// Some entry of `entries` has the key `key`.
pub open spec fn has_key(entries: Seq<(String, String)>, key: Seq<char>) -> bool {
    exists|i: int| 0 <= i < entries.len() && (#[trigger] entries[i]).0@ == key
}

/// An index at which `entries` holds `key`, if there is one.
pub open spec fn index_of_key(entries: Seq<(String, String)>, key: Seq<char>) -> int {
    choose|i: int| 0 <= i < entries.len() && (#[trigger] entries[i]).0@ == key
}

/// The mapping from names to values that a list of entries stands for.
pub open spec fn entries_map(entries: Seq<(String, String)>) -> Map<Seq<char>, Seq<char>> {
    Map::new(
        |key: Seq<char>| has_key(entries, key),
        |key: Seq<char>| entries[index_of_key(entries, key)].1@,
    )
}

/// The entry at `i` is the one that the mapping holds for its key.
pub proof fn lemma_entry_in_map(entries: Seq<(String, String)>, i: int)
    requires
        distinct_keys(entries),
        0 <= i < entries.len(),
    ensures
        entries_map(entries).contains_key(entries[i].0@),
        entries_map(entries)[entries[i].0@] == entries[i].1@,
{
    let key = entries[i].0@;
    assert(has_key(entries, key));
    let j = index_of_key(entries, key);
    assert(0 <= j < entries.len() && entries[j].0@ == key);
    if j < i {
        assert(entries[j].0@ != entries[i].0@);
    }
    if i < j {
        assert(entries[i].0@ != entries[j].0@);
    }
}

/// The attributes of a tag: a finite mapping from names to values.
///
/// The entries are kept in the order in which their names were first
/// inserted, and no name occurs twice.
#[derive(Debug)]
pub struct Attributes {
    entries: Vec<(String, String)>,
}

impl View for Attributes {
    type V = Map<Seq<char>, Seq<char>>;

    closed spec fn view(&self) -> Map<Seq<char>, Seq<char>> {
        entries_map(self.entries@)
    }
}

/// The position of `key` among `entries`, or `None` where it is absent.
fn position_of(entries: &Vec<(String, String)>, key: &str) -> (r: Option<usize>)
    ensures
        match r {
            Some(i) => i < entries@.len() && entries@[i as int].0@ == key@,
            None => !has_key(entries@, key@),
        },
{
    let mut i: usize = 0;
    while i < entries.len()
        invariant
            i <= entries@.len(),
            forall|j: int| 0 <= j < i ==> (#[trigger] entries@[j]).0@ != key@,
        decreases entries@.len() - i,
    {
        if str_eq(entries[i].0.as_str(), key) {
            return Some(i);
        }
        i += 1;
    }
    None
}

impl Attributes {
    #[verifier::type_invariant]
    spec fn inv(self) -> bool {
        distinct_keys(self.entries@)
    }

    /// The names and values in insertion order.
    pub closed spec fn pairs(&self) -> Seq<(Seq<char>, Seq<char>)> {
        Seq::new(self.entries@.len(), |i: int| (self.entries@[i].0@, self.entries@[i].1@))
    }

    /// What every value of this type satisfies: `pairs` lists each name of
    /// the mapping exactly once, with its value.
    pub open spec fn wf(&self) -> bool {
        &&& forall|i: int, j: int|
            0 <= i < j < self.pairs().len() ==> (#[trigger] self.pairs()[i]).0
                != (#[trigger] self.pairs()[j]).0
        &&& forall|i: int|
            0 <= i < self.pairs().len() ==> self@.contains_key((#[trigger] self.pairs()[i]).0)
                && self@[self.pairs()[i].0] == self.pairs()[i].1
        &&& forall|key: Seq<char>|
            self@.contains_key(key) ==> exists|i: int|
                0 <= i < self.pairs().len() && (#[trigger] self.pairs()[i]).0 == key
    }

    /// Entries with distinct keys list the mapping as `wf` demands.
    proof fn lemma_wf(&self)
        requires
            distinct_keys(self.entries@),
        ensures
            self.wf(),
    {
        let es = self.entries@;
        assert forall|i: int, j: int| 0 <= i < j < self.pairs().len() implies (
        #[trigger] self.pairs()[i]).0 != (#[trigger] self.pairs()[j]).0 by {
            assert(es[i].0@ != es[j].0@);
        }
        assert forall|i: int| 0 <= i < self.pairs().len() implies self@.contains_key(
            (#[trigger] self.pairs()[i]).0,
        ) && self@[self.pairs()[i].0] == self.pairs()[i].1 by {
            lemma_entry_in_map(es, i);
        }
        assert forall|key: Seq<char>| self@.contains_key(key) implies exists|i: int|
            0 <= i < self.pairs().len() && (#[trigger] self.pairs()[i]).0 == key by {
            let i = index_of_key(es, key);
            assert(has_key(es, key));
            assert(self.pairs()[i].0 == key);
        }
    }

    /// An empty set of attributes.
    pub fn new() -> (r: Attributes)
        ensures
            r@ == Map::<Seq<char>, Seq<char>>::empty(),
            r.pairs() == Seq::<(Seq<char>, Seq<char>)>::empty(),
            r.wf(),
    {
        let r = Attributes { entries: Vec::new() };
        proof {
            assert(r@ =~= Map::<Seq<char>, Seq<char>>::empty());
            assert(r.pairs() =~= Seq::<(Seq<char>, Seq<char>)>::empty());
            r.lemma_wf();
        }
        r
    }

    /// The number of attributes.
    pub fn len(&self) -> (r: usize)
        ensures
            r == self.pairs().len(),
            self.wf(),
    {
        proof {
            use_type_invariant(self);
            self.lemma_wf();
        }
        self.entries.len()
    }

    /// The name and value at position `i` of the insertion order.
    pub fn entry(&self, i: usize) -> (r: Option<(&String, &String)>)
        ensures
            self.wf(),
            match r {
                Some((name, value)) => i < self.pairs().len() && (name@, value@)
                    == self.pairs()[i as int],
                None => i >= self.pairs().len(),
            },
    {
        proof {
            use_type_invariant(self);
            self.lemma_wf();
        }
        if i < self.entries.len() {
            Some((&self.entries[i].0, &self.entries[i].1))
        } else {
            None
        }
    }

    /// The value stored under `key`, if there is one.
    pub fn get(&self, key: &str) -> (r: Option<&String>)
        ensures
            match r {
                Some(value) => self@.contains_key(key@) && self@[key@] == value@,
                None => !self@.contains_key(key@),
            },
    {
        proof {
            use_type_invariant(self);
        }
        match position_of(&self.entries, key) {
            Some(i) => {
                proof {
                    lemma_entry_in_map(self.entries@, i as int);
                }
                Some(&self.entries[i].1)
            },
            None => None,
        }
    }

    /// Whether a value is stored under `key`.
    pub fn contains_key(&self, key: &str) -> (r: bool)
        ensures
            r == self@.contains_key(key@),
    {
        self.get(key).is_some()
    }

    /// Stores `value` under `key` and returns the value that it replaces.
    pub fn insert(&mut self, key: String, value: String) -> (r: Option<String>)
        ensures
            final(self)@ == old(self)@.insert(key@, value@),
            match r {
                Some(previous) => old(self)@.contains_key(key@) && old(self)@[key@] == previous@
                    && exists|i: int|
                    0 <= i < old(self).pairs().len() && (#[trigger] old(self).pairs()[i]).0 == key@
                        && final(self).pairs() == old(self).pairs().update(i, (key@, value@)),
                None => !old(self)@.contains_key(key@) && final(self).pairs() == old(
                    self,
                ).pairs().push((key@, value@)),
            },
    {
        proof {
            use_type_invariant(&*self);
        }
        let ghost before = self.entries@;
        let ghost pairs = self.pairs();
        let mut entries: Vec<(String, String)> = Vec::new();
        core::mem::swap(&mut self.entries, &mut entries);
        let found = position_of(&entries, key.as_str());
        let r = match found {
            Some(i) => {
                proof {
                    lemma_entry_in_map(before, i as int);
                }
                let mut slot = value;
                core::mem::swap(&mut entries[i].1, &mut slot);
                Some(slot)
            },
            None => {
                entries.push((key, value));
                None
            },
        };
        proof {
            let after = entries@;
            assert(distinct_keys(after)) by {
                assert forall|i: int, j: int| 0 <= i < j < after.len() implies (
                #[trigger] after[i]).0@ != (#[trigger] after[j]).0@ by {
                    if j < before.len() {
                        assert(before[i].0@ != before[j].0@);
                    } else {
                        assert(has_key(before, before[i].0@));
                    }
                }
            }
            assert(entries_map(after) =~= entries_map(before).insert(key@, value@)) by {
                assert forall|k: Seq<char>| #[trigger]
                    entries_map(after).contains_key(k) == entries_map(before).insert(
                        key@,
                        value@,
                    ).contains_key(k) by {
                    if has_key(after, k) {
                        let i = index_of_key(after, k);
                        if k != key@ {
                            assert(i < before.len());
                            assert(before[i].0@ == k);
                        }
                    }
                    if has_key(before, k) {
                        let i = index_of_key(before, k);
                        assert(after[i].0@ == k);
                    }
                    if k == key@ {
                        if r is Some {
                            let i = index_of_key(before, k);
                            assert(after[i].0@ == k);
                        } else {
                            assert(after[after.len() - 1].0@ == k);
                        }
                    }
                }
                assert forall|k: Seq<char>| #[trigger]
                    entries_map(after).contains_key(k) implies entries_map(after)[k]
                    == entries_map(before).insert(key@, value@)[k] by {
                    let i = index_of_key(after, k);
                    lemma_entry_in_map(after, i);
                    if k != key@ {
                        assert(i < before.len());
                        assert(before[i].0@ == k);
                        lemma_entry_in_map(before, i);
                    }
                }
            }
        }
        self.entries = entries;
        proof {
            match found {
                Some(i) => {
                    assert(pairs[i as int].0 == key@);
                    assert(self.pairs() =~= pairs.update(i as int, (key@, value@)));
                },
                None => {
                    assert(self.pairs() =~= pairs.push((key@, value@)));
                },
            }
        }
        r
    }

    /// Removes the entry stored under `key` and returns its value.
    pub fn remove(&mut self, key: &str) -> (r: Option<String>)
        ensures
            final(self)@ == old(self)@.remove(key@),
            match r {
                Some(previous) => old(self)@.contains_key(key@) && old(self)@[key@] == previous@
                    && exists|i: int|
                    0 <= i < old(self).pairs().len() && (#[trigger] old(self).pairs()[i]).0 == key@
                        && final(self).pairs() == old(self).pairs().remove(i),
                None => !old(self)@.contains_key(key@) && final(self).pairs() == old(
                    self,
                ).pairs(),
            },
    {
        proof {
            use_type_invariant(&*self);
        }
        let ghost before = self.entries@;
        let ghost pairs = self.pairs();
        let mut entries: Vec<(String, String)> = Vec::new();
        core::mem::swap(&mut self.entries, &mut entries);
        let found = position_of(&entries, key);
        let r = match found {
            Some(i) => {
                proof {
                    lemma_entry_in_map(before, i as int);
                }
                let gone = entries.remove(i);
                proof {
                    let after = entries@;
                    assert forall|a: int, b: int| 0 <= a < b < after.len() implies (
                    #[trigger] after[a]).0@ != (#[trigger] after[b]).0@ by {
                        let a0 = if a < i { a } else { a + 1 };
                        let b0 = if b < i { b } else { b + 1 };
                        assert(after[a] == before[a0] && after[b] == before[b0]);
                        assert(before[a0].0@ != before[b0].0@);
                    }
                    assert forall|k: Seq<char>| #[trigger]
                        entries_map(after).contains_key(k) == entries_map(before).remove(
                            key@,
                        ).contains_key(k) by {
                        if has_key(after, k) {
                            let a = index_of_key(after, k);
                            let a0 = if a < i { a } else { a + 1 };
                            assert(before[a0].0@ == k);
                            if a0 < i {
                                assert(before[a0].0@ != before[i as int].0@);
                            } else {
                                assert(before[i as int].0@ != before[a0].0@);
                            }
                        }
                        if has_key(before, k) && k != key@ {
                            let b = index_of_key(before, k);
                            let b1 = if b < i { b } else { b - 1 };
                            assert(after[b1].0@ == k);
                        }
                    }
                    assert forall|k: Seq<char>| #[trigger]
                        entries_map(after).contains_key(k) implies entries_map(after)[k]
                        == entries_map(before).remove(key@)[k] by {
                        let a = index_of_key(after, k);
                        let a0 = if a < i { a } else { a + 1 };
                        lemma_entry_in_map(after, a);
                        assert(before[a0] == after[a]);
                        lemma_entry_in_map(before, a0);
                    }
                    assert(entries_map(after) =~= entries_map(before).remove(key@));
                }
                Some(gone.1)
            },
            None => {
                proof {
                    assert(entries_map(before) =~= entries_map(before).remove(key@));
                }
                None
            },
        };
        self.entries = entries;
        proof {
            match found {
                Some(i) => {
                    assert(pairs[i as int].0 == key@);
                    assert(self.pairs() =~= pairs.remove(i as int));
                },
                None => {
                    assert(self.pairs() =~= pairs);
                },
            }
        }
        r
    }

    /// Whether every entry of `self` is an entry of `other`.
    fn included_in(&self, other: &Attributes) -> (r: bool)
        ensures
            r == forall|key: Seq<char>| #[trigger]
                self@.contains_key(key) ==> other@.contains_key(key) && other@[key] == self@[key],
    {
        proof {
            use_type_invariant(self);
        }
        let mut i: usize = 0;
        while i < self.entries.len()
            invariant
                i <= self.entries@.len(),
                distinct_keys(self.entries@),
                forall|j: int|
                    0 <= j < i ==> other@.contains_key((#[trigger] self.entries@[j]).0@)
                        && other@[self.entries@[j].0@] == self.entries@[j].1@,
            decreases self.entries@.len() - i,
        {
            proof {
                lemma_entry_in_map(self.entries@, i as int);
            }
            let found = match other.get(self.entries[i].0.as_str()) {
                Some(value) => *value == self.entries[i].1,
                None => false,
            };
            if !found {
                proof {
                    let key = self.entries@[i as int].0@;
                    assert(self@.contains_key(key) && self@[key] == self.entries@[i as int].1@);
                    assert(!(other@.contains_key(key) && other@[key] == self@[key]));
                }
                return false;
            }
            i += 1;
        }
        proof {
            assert forall|key: Seq<char>| #[trigger]
                self@.contains_key(key) implies other@.contains_key(key) && other@[key]
                == self@[key] by {
                let j = index_of_key(self.entries@, key);
                lemma_entry_in_map(self.entries@, j);
            }
        }
        true
    }
}

impl Clone for Attributes {
    fn clone(&self) -> (r: Attributes)
        ensures
            r@ == self@,
            r.pairs() == self.pairs(),
    {
        proof {
            use_type_invariant(self);
        }
        let mut entries: Vec<(String, String)> = Vec::new();
        let mut i: usize = 0;
        while i < self.entries.len()
            invariant
                i <= self.entries@.len(),
                entries@.len() == i,
                forall|j: int|
                    0 <= j < i ==> (#[trigger] entries@[j]).0@ == self.entries@[j].0@
                        && entries@[j].1@ == self.entries@[j].1@,
            decreases self.entries@.len() - i,
        {
            entries.push((self.entries[i].0.clone(), self.entries[i].1.clone()));
            i += 1;
        }
        proof {
            let a = entries@;
            let b = self.entries@;
            assert forall|i: int, j: int| 0 <= i < j < a.len() implies (#[trigger] a[i]).0@ != (
            #[trigger] a[j]).0@ by {
                assert(b[i].0@ != b[j].0@);
            }
            assert forall|k: Seq<char>| has_key(a, k) == has_key(b, k) by {
                if has_key(a, k) {
                    let i = index_of_key(a, k);
                    assert(b[i].0@ == k);
                }
                if has_key(b, k) {
                    let i = index_of_key(b, k);
                    assert(a[i].0@ == k);
                }
            }
            assert forall|k: Seq<char>| has_key(a, k) implies entries_map(a)[k] == entries_map(
                b,
            )[k] by {
                let i = index_of_key(a, k);
                lemma_entry_in_map(a, i);
                assert(b[i].0@ == k);
                lemma_entry_in_map(b, i);
            }
            assert(entries_map(a) =~= entries_map(b));
        }
        let r = Attributes { entries };
        proof {
            assert(r.pairs() =~= self.pairs());
        }
        r
    }
}

impl PartialEq for Attributes {
    fn eq(&self, other: &Attributes) -> (r: bool) {
        let r = self.included_in(other) && other.included_in(self);
        proof {
            if r {
                assert(self@ =~= other@);
            }
        }
        r
    }
}

impl PartialEqSpecImpl for Attributes {
    open spec fn obeys_eq_spec() -> bool {
        true
    }

    open spec fn eq_spec(&self, other: &Attributes) -> bool {
        self@ == other@
    }
}

/// The mathematical content of a [`Tag`].
pub struct TagView {
    pub name: Seq<char>,
    /// `None` for a tag that was never given attributes, which differs from
    /// a tag with an empty set of them.
    pub attributes: Option<Map<Seq<char>, Seq<char>>>,
    pub self_closing: bool,
    pub terminator: bool,
}

/// A start tag, an end tag or a self-closing tag.
#[derive(Debug)]
pub struct Tag {
    name: String,
    attributes: Option<Attributes>,
    // <tag />
    self_closing: bool,
    // </tag>
    terminator: bool,
}

impl View for Tag {
    type V = TagView;

    closed spec fn view(&self) -> TagView {
        TagView {
            name: self.name@,
            attributes: match self.attributes {
                Some(attributes) => Some(attributes@),
                None => None,
            },
            self_closing: self.self_closing,
            terminator: self.terminator,
        }
    }
}

impl Tag {
    /// A start tag named `name`, without attributes.
    pub fn new(name: &str) -> (r: Tag)
        ensures
            r@ == (TagView {
                name: name@,
                attributes: None,
                self_closing: false,
                terminator: false,
            }),
    {
        Tag { name: name.to_owned(), attributes: None, self_closing: false, terminator: false }
    }

    pub fn get_name(&self) -> (r: &str)
        ensures
            r@ == self@.name,
    {
        self.name.as_str()
    }

    /// Replaces the whole set of attributes.
    pub fn set_attributes(&mut self, attributes: Attributes)
        ensures
            final(self)@ == (TagView { attributes: Some(attributes@), ..old(self)@ }),
    {
        self.attributes = Some(attributes);
    }

    pub fn get_attributes(&self) -> (r: Option<&Attributes>)
        ensures
            match r {
                Some(attributes) => self@.attributes == Some(attributes@),
                None => self@.attributes is None,
            },
    {
        self.attributes.as_ref()
    }

    /// Sets one attribute, creating the set of attributes where the tag had none.
    pub fn set_attribute(&mut self, attribute: &str, value: &str)
        ensures
            final(self)@ == (TagView {
                attributes: Some(
                    match old(self)@.attributes {
                        Some(attributes) => attributes.insert(attribute@, value@),
                        None => Map::<Seq<char>, Seq<char>>::empty().insert(attribute@, value@),
                    },
                ),
                ..old(self)@
            }),
    {
        let mut attributes = match self.attributes.take() {
            Some(attributes) => attributes,
            None => Attributes::new(),
        };
        attributes.insert(attribute.to_owned(), value.to_owned());
        self.attributes = Some(attributes);
    }

    /// The value of the attribute `attribute_name`, where the tag has it.
    pub fn get_attribute_value(&self, attribute_name: &str) -> (r: Option<String>)
        ensures
            r is Some <==> self@.attributes is Some && self@.attributes->0.contains_key(
                attribute_name@,
            ),
            r matches Some(value) ==> value@ == self@.attributes->0[attribute_name@],
    {
        if let Some(attributes) = &self.attributes {
            if let Some(value) = attributes.get(attribute_name) {
                return Some(value.clone());
            }
        }
        None
    }

    pub fn set_terminator(&mut self, b: bool)
        ensures
            final(self)@ == (TagView { terminator: b, ..old(self)@ }),
    {
        self.terminator = b;
    }

    pub fn is_terminator(&self) -> (r: bool)
        ensures
            r == self@.terminator,
    {
        self.terminator
    }

    pub fn set_self_closing(&mut self, b: bool)
        ensures
            final(self)@ == (TagView { self_closing: b, ..old(self)@ }),
    {
        self.self_closing = b;
    }

    pub fn is_self_closing(&self) -> (r: bool)
        ensures
            r == self@.self_closing,
    {
        self.self_closing
    }
}

impl Clone for Tag {
    fn clone(&self) -> (r: Tag)
        ensures
            r@ == self@,
    {
        Tag {
            name: self.name.clone(),
            attributes: match &self.attributes {
                Some(attributes) => Some(attributes.clone()),
                None => None,
            },
            self_closing: self.self_closing,
            terminator: self.terminator,
        }
    }
}

impl PartialEq for Tag {
    fn eq(&self, other: &Tag) -> (r: bool) {
        let same_attributes = match (&self.attributes, &other.attributes) {
            (Some(a), Some(b)) => a == b,
            (None, None) => true,
            _ => false,
        };
        self.name == other.name && same_attributes && self.self_closing == other.self_closing
            && self.terminator == other.terminator
    }
}

impl PartialEqSpecImpl for Tag {
    open spec fn obeys_eq_spec() -> bool {
        true
    }

    open spec fn eq_spec(&self, other: &Tag) -> bool {
        self@ == other@
    }
}

/// The mathematical content of a [`Payload`].
pub enum PayloadView {
    Tag(TagView),
    Text(Seq<char>),
    Comment(Seq<char>),
}

/// The content of one node.
#[derive(Debug)]
pub enum Payload {
    Tag(Tag),
    Text(Text),
    Comment(Text),
}

impl View for Payload {
    type V = PayloadView;

    open spec fn view(&self) -> PayloadView {
        match self {
            Payload::Tag(tag) => PayloadView::Tag(tag@),
            Payload::Text(text) => PayloadView::Text(text@),
            Payload::Comment(text) => PayloadView::Comment(text@),
        }
    }
}

impl Clone for Payload {
    fn clone(&self) -> (r: Payload)
        ensures
            r@ == self@,
    {
        match self {
            Payload::Tag(tag) => Payload::Tag(tag.clone()),
            Payload::Text(text) => Payload::Text(text.clone()),
            Payload::Comment(text) => Payload::Comment(text.clone()),
        }
    }
}

impl PartialEq for Payload {
    fn eq(&self, other: &Payload) -> (r: bool) {
        match (self, other) {
            (Payload::Tag(a), Payload::Tag(b)) => *a == *b,
            (Payload::Text(a), Payload::Text(b)) => *a == *b,
            (Payload::Comment(a), Payload::Comment(b)) => *a == *b,
            _ => false,
        }
    }
}

impl PartialEqSpecImpl for Payload {
    open spec fn obeys_eq_spec() -> bool {
        true
    }

    open spec fn eq_spec(&self, other: &Payload) -> bool {
        self@ == other@
    }
}

} // verus!
