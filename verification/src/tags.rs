//! Tags and their visibility.
//!
//! A tag is a nonempty string of Unicode alphanumerics, `-` and `_` after
//! trimming; subscribers select sessions by tag.  `Tags` is a set of tag
//! names; `TagsAux` pairs each tag with its visibility.

use vstd::prelude::*;

use crate::shims::{
    chars_to_string, is_alphanumeric_char, is_whitespace_char, unicode_alphanumeric,
    whitespace_char,
};

verus! {

/// Characters a tag name may contain.  Alphanumerics exclude the comma,
/// the colon and whitespace, so the exclusions only make the class
/// explicit.
pub open spec fn tag_char(c: char) -> bool {
    (unicode_alphanumeric(c) && c != ',' && c != ':' && !whitespace_char(c)) || c == '-' || c
        == '_'
}

/// A nonempty name made only of tag characters.
pub open spec fn valid_tag_name(s: Seq<char>) -> bool {
    s.len() > 0 && forall|i: int| 0 <= i < s.len() ==> tag_char(#[trigger] s[i])
}

/// The string with its leading whitespace removed.
pub open spec fn drop_leading_ws(s: Seq<char>) -> Seq<char>
    decreases s.len(),
{
    if s.len() == 0 {
        s
    } else if whitespace_char(s[0]) {
        drop_leading_ws(s.drop_first())
    } else {
        s
    }
}

/// The string with its trailing whitespace removed.
pub open spec fn drop_trailing_ws(s: Seq<char>) -> Seq<char>
    decreases s.len(),
{
    if s.len() == 0 {
        s
    } else if whitespace_char(s.last()) {
        drop_trailing_ws(s.drop_last())
    } else {
        s
    }
}

/// What `str::trim` leaves: the string without leading and trailing whitespace.
pub open spec fn trimmed(s: Seq<char>) -> Seq<char> {
    drop_trailing_ws(drop_leading_ws(s))
}

proof fn lemma_drop_leading_ws_at(s: Seq<char>, i: int)
    requires
        0 <= i <= s.len(),
        forall|k: int| 0 <= k < i ==> whitespace_char(#[trigger] s[k]),
        i == s.len() || !whitespace_char(s[i]),
    ensures
        drop_leading_ws(s) == s.subrange(i, s.len() as int),
    decreases i,
{
    if i == 0 {
        if s.len() == 0 {
            assert(s.subrange(0, 0) =~= s);
        } else {
            assert(s.subrange(0, s.len() as int) =~= s);
        }
    } else {
        assert(whitespace_char(s[0]));
        let t = s.drop_first();
        assert(forall|k: int| 0 <= k < i - 1 ==> whitespace_char(#[trigger] t[k]));
        lemma_drop_leading_ws_at(t, i - 1);
        assert(t.subrange(i - 1, t.len() as int) =~= s.subrange(i, s.len() as int));
    }
}

proof fn lemma_drop_trailing_ws_at(s: Seq<char>, j: int)
    requires
        0 <= j <= s.len(),
        forall|k: int| j <= k < s.len() ==> whitespace_char(#[trigger] s[k]),
        j == 0 || !whitespace_char(s[j - 1]),
    ensures
        drop_trailing_ws(s) == s.subrange(0, j),
    decreases s.len() - j,
{
    if j == s.len() {
        if j == 0 {
            assert(s.subrange(0, 0) =~= s);
        } else {
            assert(s.subrange(0, s.len() as int) =~= s);
        }
    } else {
        assert(whitespace_char(s.last()));
        let t = s.drop_last();
        lemma_drop_trailing_ws_at(t, j);
        assert(t.subrange(0, j) =~= s.subrange(0, j));
    }
}

/// A string without whitespace trims to itself.
pub proof fn lemma_trim_of_clean(s: Seq<char>)
    requires
        forall|i: int| 0 <= i < s.len() ==> !whitespace_char(#[trigger] s[i]),
    ensures
        trimmed(s) == s,
{
    if s.len() > 0 {
        assert(!whitespace_char(s[0]));
        assert(!whitespace_char(s.last()));
    }
}

/// Trim a character sequence as `str::trim` would.
pub fn trim_chars(v: &Vec<char>) -> (r: Vec<char>)
    ensures
        r@ == trimmed(v@),
{
    let n = v.len();
    let ghost s = v@;
    let mut i: usize = 0;
    loop
        invariant
            0 <= i <= n,
            n == s.len(),
            v@ == s,
            forall|k: int| 0 <= k < i ==> whitespace_char(#[trigger] s[k]),
        ensures
            0 <= i <= n,
            v@ == s,
            forall|k: int| 0 <= k < i ==> whitespace_char(#[trigger] s[k]),
            i == n || !whitespace_char(s[i as int]),
        decreases n - i,
    {
        if i >= n {
            break;
        }
        if !is_whitespace_char(v[i]) {
            break;
        }
        i = i + 1;
    }
    proof {
        lemma_drop_leading_ws_at(s, i as int);
    }
    let mut j: usize = n;
    loop
        invariant
            i <= j <= n,
            n == s.len(),
            v@ == s,
            i == n || !whitespace_char(s[i as int]),
            forall|k: int| j <= k < n ==> whitespace_char(#[trigger] s[k]),
        ensures
            i <= j <= n,
            v@ == s,
            forall|k: int| j <= k < n ==> whitespace_char(#[trigger] s[k]),
            j == i || !whitespace_char(s[j - 1]),
        decreases j,
    {
        if j <= i {
            break;
        }
        if !is_whitespace_char(v[j - 1]) {
            break;
        }
        j = j - 1;
    }
    let ghost s1 = s.subrange(i as int, n as int);
    proof {
        assert(forall|k: int| j - i <= k < s1.len() ==> whitespace_char(#[trigger] s1[k]));
        if j > i {
            assert(!whitespace_char(s1[j - i - 1]));
        }
        lemma_drop_trailing_ws_at(s1, j - i);
        assert(s1.subrange(0, j - i) =~= s.subrange(i as int, j as int));
        assert(trimmed(s) == s.subrange(i as int, j as int));
    }
    let mut sub: Vec<char> = Vec::new();
    let mut m: usize = i;
    while m < j
        invariant
            i <= m <= j <= n,
            n == s.len(),
            v@ == s,
            sub@ == s.subrange(i as int, m as int),
        decreases j - m,
    {
        sub.push(v[m]);
        proof {
            assert(sub@ =~= s.subrange(i as int, m + 1));
        }
        m = m + 1;
    }
    proof {
        assert(sub@ == trimmed(v@));
    }
    sub
}

/// Tag construction errors.
#[derive(Debug, Clone, Copy, PartialEq, Eq, Structural)]
pub enum TagError {
    /// The name was empty after trimming.
    Empty,
    /// The name held a character outside letters, digits, `-` and `_`.
    InvalidChar(char),
}

/// A tag name.
#[derive(Debug)]
pub struct Tag(pub String);

impl Clone for Tag {
    fn clone(&self) -> (r: Tag)
        ensures
            r == *self,
    {
        Tag(self.0.clone())
    }
}

impl View for Tag {
    type V = Seq<char>;

    open spec fn view(&self) -> Seq<char> {
        self.0@
    }
}

impl PartialEq for Tag {
    fn eq(&self, other: &Tag) -> (r: bool) {
        self.0 == other.0
    }
}

impl vstd::std_specs::cmp::PartialEqSpecImpl for Tag {
    open spec fn obeys_eq_spec() -> bool {
        true
    }

    open spec fn eq_spec(&self, other: &Tag) -> bool {
        self@ == other@
    }
}

impl Tag {
    /// Trim the name, then accept it only if it is nonempty and made of
    /// Unicode alphanumerics, `-` and `_`.
    pub fn new(tag: String) -> (r: Result<Tag, TagError>)
        ensures
            r is Ok <==> valid_tag_name(trimmed(tag@)),
            r matches Ok(t) ==> t@ == trimmed(tag@),
            r == Result::<Tag, TagError>::Err(TagError::Empty) <==> trimmed(tag@).len() == 0,
            r matches Err(TagError::InvalidChar(c)) ==> trimmed(tag@).contains(c) && !tag_char(c),
    {
        let chars = crate::shims::string_chars(tag.as_str());
        let n = chars.len();
        let ghost s = tag@;

        let mut i: usize = 0;
        loop
            invariant
                0 <= i <= n,
                n == s.len(),
                chars@ == s,
                forall|k: int| 0 <= k < i ==> whitespace_char(#[trigger] s[k]),
            ensures
                0 <= i <= n,
                forall|k: int| 0 <= k < i ==> whitespace_char(#[trigger] s[k]),
                i == n || !whitespace_char(s[i as int]),
            decreases n - i,
        {
            if i >= n {
                break;
            }
            if !is_whitespace_char(chars[i]) {
                break;
            }
            i = i + 1;
        }
        proof {
            lemma_drop_leading_ws_at(s, i as int);
        }

        let mut j: usize = n;
        loop
            invariant
                i <= j <= n,
                n == s.len(),
                chars@ == s,
                i == n || !whitespace_char(s[i as int]),
                forall|k: int| j <= k < n ==> whitespace_char(#[trigger] s[k]),
            ensures
                i <= j <= n,
                forall|k: int| j <= k < n ==> whitespace_char(#[trigger] s[k]),
                j == i || !whitespace_char(s[j - 1]),
            decreases j,
        {
            if j <= i {
                break;
            }
            if !is_whitespace_char(chars[j - 1]) {
                break;
            }
            j = j - 1;
        }
        let ghost s1 = s.subrange(i as int, n as int);
        proof {
            assert(forall|k: int| j - i <= k < s1.len() ==> whitespace_char(#[trigger] s1[k]));
            if j > i {
                assert(!whitespace_char(s1[j - i - 1]));
            }
            lemma_drop_trailing_ws_at(s1, j - i);
            assert(s1.subrange(0, j - i) =~= s.subrange(i as int, j as int));
            assert(trimmed(s) == s.subrange(i as int, j as int));
        }

        if i == j {
            return Err(TagError::Empty);
        }

        let mut k: usize = i;
        while k < j
            invariant
                i <= k <= j <= n,
                n == s.len(),
                chars@ == s,
                s == tag@,
                trimmed(s) == s.subrange(i as int, j as int),
                forall|m: int| i <= m < k ==> tag_char(#[trigger] s[m]),
            decreases j - k,
        {
            let c = chars[k];
            let is_word = is_alphanumeric_char(c) && c != ',' && c != ':' && !is_whitespace_char(
                c,
            );
            if !(is_word || c == '-' || c == '_') {
                proof {
                    assert(trimmed(s)[k - i] == c);
                    assert(trimmed(s).contains(c));
                    assert(!tag_char(trimmed(s)[k - i]));
                    assert(!valid_tag_name(trimmed(s)));
                    assert(trimmed(s).len() > 0);
                }
                return Err(TagError::InvalidChar(c));
            }
            k = k + 1;
        }

        let mut sub: Vec<char> = Vec::new();
        let mut m: usize = i;
        while m < j
            invariant
                i <= m <= j <= n,
                n == s.len(),
                chars@ == s,
                sub@ == s.subrange(i as int, m as int),
            decreases j - m,
        {
            sub.push(chars[m]);
            proof {
                assert(sub@ =~= s.subrange(i as int, m + 1));
            }
            m = m + 1;
        }
        let name = chars_to_string(&sub);
        Ok(Tag(name))
    }
}

proof fn lemma_prefix_push_to_set<A>(s: Seq<A>, i: int)
    requires
        0 <= i < s.len(),
    ensures
        s.subrange(0, i + 1).to_set() == s.subrange(0, i).to_set().insert(s[i]),
{
    assert(s.subrange(0, i + 1) =~= s.subrange(0, i).push(s[i]));
    s.subrange(0, i).lemma_push_to_set_commute(s[i]);
}

/// A set of tag names, kept without duplicates.
#[derive(Debug)]
pub struct Tags {
    items: Vec<Tag>,
}

impl View for Tags {
    type V = Set<Seq<char>>;

    open spec fn view(&self) -> Set<Seq<char>> {
        self.names().to_set()
    }
}

impl Tags {
    /// The names in insertion order.
    pub closed spec fn names(&self) -> Seq<Seq<char>> {
        self.items@.map_values(|t: Tag| t@)
    }

    #[verifier::type_invariant]
    spec fn inv(self) -> bool {
        self.names().no_duplicates()
    }

    /// The empty set.
    pub fn new() -> (r: Tags)
        ensures
            r@ == Set::<Seq<char>>::empty(),
    {
        let r = Tags { items: Vec::new() };
        proof {
            assert(r@ =~= Set::<Seq<char>>::empty());
        }
        r
    }

    /// How many tags the set holds.
    pub fn len(&self) -> (r: usize)
        ensures
            r == self@.len(),
    {
        proof {
            use_type_invariant(&*self);
            self.names().unique_seq_to_set();
        }
        self.items.len()
    }

    /// Whether the set holds no tag.
    pub fn is_empty(&self) -> (r: bool)
        ensures
            r == (self@ =~= Set::<Seq<char>>::empty()),
    {
        proof {
            use_type_invariant(&*self);
            self.names().unique_seq_to_set();
            if self.names().len() > 0 {
                assert(self@.contains(self.names()[0]));
            }
        }
        self.items.len() == 0
    }

    /// Whether the set holds this tag.
    pub fn contains(&self, tag: &Tag) -> (r: bool)
        ensures
            r == self@.contains(tag@),
    {
        let n = self.items.len();
        let mut idx: usize = 0;
        loop
            invariant
                0 <= idx <= n,
                n == self.items@.len(),
                forall|k: int| 0 <= k < idx ==> self.names()[k] != tag@,
            ensures
                (idx < n && self.names()[idx as int] == tag@) || (idx == n && forall|k: int|
                    0 <= k < n ==> self.names()[k] != tag@),
            decreases n - idx,
        {
            if idx >= n {
                break;
            }
            if self.items[idx] == *tag {
                break;
            }
            idx = idx + 1;
        }
        if idx < n {
            proof {
                assert(self.names().contains(tag@));
            }
            true
        } else {
            proof {
                if self.names().contains(tag@) {
                    let k = choose|k: int| 0 <= k < n && self.names()[k] == tag@;
                    assert(self.names()[k] == tag@);
                }
            }
            false
        }
    }

    /// Add a tag; adding one already present changes nothing.
    pub fn insert(&mut self, tag: Tag)
        ensures
            final(self)@ == old(self)@.insert(tag@),
    {
        proof {
            use_type_invariant(&*self);
        }
        if self.contains(&tag) {
            proof {
                assert(old(self)@ =~= old(self)@.insert(tag@));
            }
        } else {
            let mut items: Vec<Tag> = Vec::new();
            core::mem::swap(&mut items, &mut self.items);
            items.push(tag);
            proof {
                assert(items@.map_values(|t: Tag| t@) =~= old(self).names().push(tag@));
            }
            self.items = items;
            proof {
                old(self).names().lemma_push_to_set_commute(tag@);
                assert(self@ =~= old(self)@.insert(tag@));
            }
        }
    }

    /// Add every tag of the other set.
    pub fn merge(&mut self, other: &Tags)
        ensures
            final(self)@ == old(self)@ + other@,
    {
        proof {
            use_type_invariant(&*other);
        }
        let n = other.items.len();
        let mut idx: usize = 0;
        while idx < n
            invariant
                0 <= idx <= n,
                n == other.items@.len(),
                self@ == old(self)@ + other.names().subrange(0, idx as int).to_set(),
            decreases n - idx,
        {
            let t = other.items[idx].clone();
            self.insert(t);
            proof {
                lemma_prefix_push_to_set(other.names(), idx as int);
                assert(self@ =~= old(self)@ + other.names().subrange(0, idx + 1).to_set());
            }
            idx = idx + 1;
        }
        proof {
            assert(other.names().subrange(0, n as int) =~= other.names());
            assert(self@ =~= old(self)@ + other@);
        }
    }

    /// The tags in both sets.
    pub fn intersect(&self, other: &Tags) -> (r: Tags)
        ensures
            r@ == self@.intersect(other@),
    {
        proof {
            use_type_invariant(&*self);
        }
        let n = self.items.len();
        let mut r = Tags::new();
        let mut idx: usize = 0;
        while idx < n
            invariant
                0 <= idx <= n,
                n == self.items@.len(),
                r@ == self.names().subrange(0, idx as int).to_set().intersect(other@),
            decreases n - idx,
        {
            let t = &self.items[idx];
            if other.contains(t) {
                let t2 = t.clone();
                r.insert(t2);
            }
            proof {
                lemma_prefix_push_to_set(self.names(), idx as int);
                assert(r@ =~= self.names().subrange(0, idx + 1).to_set().intersect(other@));
            }
            idx = idx + 1;
        }
        proof {
            assert(self.names().subrange(0, n as int) =~= self.names());
            assert(r@ =~= self@.intersect(other@));
        }
        r
    }

    /// The tags as a vector without duplicates.
    pub fn as_vec(&self) -> (r: &Vec<Tag>)
        ensures
            r@.map_values(|t: Tag| t@).to_set() == self@,
            r@.map_values(|t: Tag| t@).no_duplicates(),
    {
        proof {
            use_type_invariant(&*self);
        }
        &self.items
    }
}

/// Whether a tag is advertised to subscribers without a filter.
#[derive(Debug, Clone, Copy, PartialEq, Eq, Structural)]
pub enum TagVisibility {
    Private,
    Public,
}

/// The view of a visibility-qualified tag.
pub ghost struct TagAuxV {
    pub name: Seq<char>,
    pub public: bool,
}

/// A tag together with its visibility.
#[derive(Debug)]
pub struct TagAux {
    pub name: Tag,
    pub visibility: TagVisibility,
}

impl Clone for TagAux {
    fn clone(&self) -> (r: TagAux)
        ensures
            r == *self,
    {
        TagAux { name: self.name.clone(), visibility: self.visibility }
    }
}

impl View for TagAux {
    type V = TagAuxV;

    open spec fn view(&self) -> TagAuxV {
        TagAuxV { name: self.name@, public: self.visibility is Public }
    }
}

impl PartialEq for TagAux {
    fn eq(&self, other: &TagAux) -> (r: bool) {
        self.name == other.name && self.visibility == other.visibility
    }
}

impl vstd::std_specs::cmp::PartialEqSpecImpl for TagAux {
    open spec fn obeys_eq_spec() -> bool {
        true
    }

    open spec fn eq_spec(&self, other: &TagAux) -> bool {
        self@ == other@
    }
}

impl TagAux {
    /// Validate the name as `Tag::new` does and pair it with the visibility.
    pub fn new(name: &str, visibility: TagVisibility) -> (r: Result<TagAux, TagError>)
        ensures
            r is Ok <==> valid_tag_name(trimmed(name@)),
            r matches Ok(t) ==> t@ == (TagAuxV {
                name: trimmed(name@),
                public: visibility is Public,
            }),
            r == Result::<TagAux, TagError>::Err(TagError::Empty) <==> trimmed(name@).len() == 0,
            r matches Err(TagError::InvalidChar(c)) ==> trimmed(name@).contains(c) && !tag_char(
                c,
            ),
    {
        let tag = Tag::new(name.to_owned())?;
        Ok(TagAux { name: tag, visibility })
    }

    /// The bare tag name.
    pub fn as_tag(&self) -> (r: Tag)
        ensures
            r@ == self@.name,
    {
        self.name.clone()
    }

    /// Whether the visibility is public.
    pub fn is_public(&self) -> (r: bool)
        ensures
            r == self@.public,
    {
        self.visibility == TagVisibility::Public
    }
}

/// A set of visibility-qualified tags, kept without duplicate pairs.
#[derive(Debug)]
pub struct TagsAux {
    items: Vec<TagAux>,
}

impl Clone for TagsAux {
    fn clone(&self) -> (r: TagsAux)
        ensures
            r@ == self@,
            r.pairs() == self.pairs(),
    {
        let items = self.items_cloned();
        proof {
            use_type_invariant(&*self);
        }
        let r = TagsAux { items };
        proof {
            assert(r.pairs() == self.pairs());
        }
        r
    }
}

impl View for TagsAux {
    type V = Set<TagAuxV>;

    open spec fn view(&self) -> Set<TagAuxV> {
        self.pairs().to_set()
    }
}

impl TagsAux {
    /// The pairs in insertion order.
    pub closed spec fn pairs(&self) -> Seq<TagAuxV> {
        self.items@.map_values(|t: TagAux| t@)
    }

    #[verifier::type_invariant]
    spec fn inv(self) -> bool {
        self.pairs().no_duplicates()
    }

    /// The empty set.
    pub fn new() -> (r: TagsAux)
        ensures
            r@ == Set::<TagAuxV>::empty(),
    {
        let r = TagsAux { items: Vec::new() };
        proof {
            assert(r@ =~= Set::<TagAuxV>::empty());
        }
        r
    }

    /// How many pairs the set holds.
    pub fn len(&self) -> (r: usize)
        ensures
            r == self@.len(),
    {
        proof {
            use_type_invariant(&*self);
            self.pairs().unique_seq_to_set();
        }
        self.items.len()
    }

    /// Whether the set holds no pair.
    pub fn is_empty(&self) -> (r: bool)
        ensures
            r == (self@ =~= Set::<TagAuxV>::empty()),
    {
        proof {
            use_type_invariant(&*self);
            self.pairs().unique_seq_to_set();
            if self.pairs().len() > 0 {
                assert(self@.contains(self.pairs()[0]));
            }
        }
        self.items.len() == 0
    }

    /// Whether the set holds this pair.
    pub fn contains(&self, tag: &TagAux) -> (r: bool)
        ensures
            r == self@.contains(tag@),
    {
        let n = self.items.len();
        let mut idx: usize = 0;
        loop
            invariant
                0 <= idx <= n,
                n == self.items@.len(),
                forall|k: int| 0 <= k < idx ==> self.pairs()[k] != tag@,
            ensures
                (idx < n && self.pairs()[idx as int] == tag@) || (idx == n && forall|k: int|
                    0 <= k < n ==> self.pairs()[k] != tag@),
            decreases n - idx,
        {
            if idx >= n {
                break;
            }
            if self.items[idx] == *tag {
                break;
            }
            idx = idx + 1;
        }
        if idx < n {
            proof {
                assert(self.pairs().contains(tag@));
            }
            true
        } else {
            proof {
                if self.pairs().contains(tag@) {
                    let k = choose|k: int| 0 <= k < n && self.pairs()[k] == tag@;
                    assert(self.pairs()[k] == tag@);
                }
            }
            false
        }
    }

    /// Add a pair; adding one already present changes nothing.
    pub fn insert(&mut self, tag: TagAux)
        ensures
            final(self)@ == old(self)@.insert(tag@),
    {
        proof {
            use_type_invariant(&*self);
        }
        if self.contains(&tag) {
            proof {
                assert(old(self)@ =~= old(self)@.insert(tag@));
            }
        } else {
            let ghost tv = tag@;
            let mut items: Vec<TagAux> = Vec::new();
            core::mem::swap(&mut items, &mut self.items);
            items.push(tag);
            proof {
                assert(items@.map_values(|t: TagAux| t@) =~= old(self).pairs().push(tv));
            }
            self.items = items;
            proof {
                old(self).pairs().lemma_push_to_set_commute(tv);
                assert(self@ =~= old(self)@.insert(tv));
            }
        }
    }

    /// The pairs as an owned vector without duplicates.
    pub fn items_cloned(&self) -> (r: Vec<TagAux>)
        ensures
            r@.map_values(|t: TagAux| t@) == self.pairs(),
            r@.map_values(|t: TagAux| t@).no_duplicates(),
            r@.map_values(|t: TagAux| t@).to_set() == self@,
    {
        proof {
            use_type_invariant(&*self);
        }
        let n = self.items.len();
        let mut r: Vec<TagAux> = Vec::new();
        let mut i: usize = 0;
        while i < n
            invariant
                0 <= i <= n,
                n == self.items@.len(),
                r@.map_values(|t: TagAux| t@) == self.pairs().subrange(0, i as int),
            decreases n - i,
        {
            let c = self.items[i].clone();
            proof {
                assert(c@ == self.pairs()[i as int]);
            }
            r.push(c);
            proof {
                assert(self.pairs().subrange(0, i + 1) =~= self.pairs().subrange(0, i as int).push(
                    self.pairs()[i as int],
                ));
                assert(r@.map_values(|t: TagAux| t@) =~= self.pairs().subrange(0, i + 1));
            }
            i = i + 1;
        }
        proof {
            assert(self.pairs().subrange(0, n as int) =~= self.pairs());
        }
        r
    }

    /// The pairs as a vector without duplicates.
    pub fn as_vec(&self) -> (r: &Vec<TagAux>)
        ensures
            r@.map_values(|t: TagAux| t@).to_set() == self@,
            r@.map_values(|t: TagAux| t@).no_duplicates(),
    {
        proof {
            use_type_invariant(&*self);
        }
        &self.items
    }

    /// The bare names of all tags, public or private.
    pub fn as_tags(&self) -> (r: Tags)
        ensures
            r@ == self@.map(|t: TagAuxV| t.name),
    {
        proof {
            use_type_invariant(&*self);
        }
        let n = self.items.len();
        let mut r = Tags::new();
        let mut idx: usize = 0;
        while idx < n
            invariant
                0 <= idx <= n,
                n == self.items@.len(),
                r@ == self.pairs().subrange(0, idx as int).map_values(|t: TagAuxV| t.name).to_set(),
            decreases n - idx,
        {
            r.insert(self.items[idx].as_tag());
            proof {
                let f = |t: TagAuxV| t.name;
                assert(self.pairs().subrange(0, idx + 1).map_values(f) =~= self.pairs().subrange(
                    0,
                    idx as int,
                ).map_values(f).push(f(self.pairs()[idx as int])));
                self.pairs().subrange(0, idx as int).map_values(f).lemma_push_to_set_commute(
                    f(self.pairs()[idx as int]),
                );
                assert(r@ =~= self.pairs().subrange(0, idx + 1).map_values(f).to_set());
            }
            idx = idx + 1;
        }
        proof {
            assert(self.pairs().subrange(0, n as int) =~= self.pairs());
            self.pairs().lemma_to_set_map_commutes(|t: TagAuxV| t.name);
            assert(r@ =~= self@.map(|t: TagAuxV| t.name));
        }
        r
    }

    /// The names of the public tags.
    pub fn public_tags(&self) -> (r: Tags)
        ensures
            r@ == Set::new(
                |n: Seq<char>| self@.contains(TagAuxV { name: n, public: true }),
            ),
    {
        proof {
            use_type_invariant(&*self);
        }
        let n = self.items.len();
        let mut r = Tags::new();
        let mut idx: usize = 0;
        while idx < n
            invariant
                0 <= idx <= n,
                n == self.items@.len(),
                r@ == Set::new(
                    |nm: Seq<char>| self.pairs().subrange(0, idx as int).to_set().contains(
                        TagAuxV { name: nm, public: true },
                    ),
                ),
            decreases n - idx,
        {
            if self.items[idx].is_public() {
                r.insert(self.items[idx].as_tag());
            }
            proof {
                lemma_prefix_push_to_set(self.pairs(), idx as int);
                assert(r@ =~= Set::new(
                    |nm: Seq<char>| self.pairs().subrange(0, idx + 1).to_set().contains(
                        TagAuxV { name: nm, public: true },
                    ),
                ));
            }
            idx = idx + 1;
        }
        proof {
            assert(self.pairs().subrange(0, n as int) =~= self.pairs());
            assert(r@ =~= Set::new(
                |nm: Seq<char>| self@.contains(TagAuxV { name: nm, public: true }),
            ));
        }
        r
    }
}

} // verus!
