use vstd::prelude::*;

verus! {

/// One attribute of a flat item: the table stores strings and numbers.
#[derive(Clone)]
pub enum AttrValue {
    S(String),
    N(i64),
}

/// The mathematical value of an attribute.
pub enum AttrView {
    S(Seq<char>),
    N(int),
}

impl View for AttrValue {
    type V = AttrView;

    open spec fn view(&self) -> AttrView {
        match self {
            AttrValue::S(s) => AttrView::S(s@),
            AttrValue::N(n) => AttrView::N(*n as int),
        }
    }
}

impl DeepView for AttrValue {
    type V = AttrView;

    open spec fn deep_view(&self) -> AttrView {
        self.view()
    }
}

/// A flat item: the storage unit of the single shared table.
///
/// Every entity (document, group, note) is written as one such item.
/// Each attribute is either absent or a tagged value; whether an absent
/// or wrongly tagged attribute is an error is decided by the decoders,
/// not here. The attribute names of the wire shape are `PK`, `SK`,
/// `title`, `description`, `created`, `lastUpdated`, `updatedBy` and
/// `parent`; the fields below stand for them in that order.
#[derive(Clone)]
pub struct FlatItem {
    /// `PK`: the type tag (`document`, `group` or `note`).
    pub pk: Option<AttrValue>,
    /// `SK`: the prefixed sort identity.
    pub sk: Option<AttrValue>,
    /// `title`
    pub title: Option<AttrValue>,
    /// `description`
    pub description: Option<AttrValue>,
    /// `created`: creation timestamp, numeric.
    pub created: Option<AttrValue>,
    /// `lastUpdated`: last-update timestamp, numeric.
    pub last_updated: Option<AttrValue>,
    /// `updatedBy`: the acting principal.
    pub updated_by: Option<AttrValue>,
    /// `parent`: the owning entity's sort key; present only on groups
    /// and notes.
    pub parent: Option<AttrValue>,
}

/// The mathematical value of a flat item.
pub struct FlatItemView {
    pub pk: Option<AttrView>,
    pub sk: Option<AttrView>,
    pub title: Option<AttrView>,
    pub description: Option<AttrView>,
    pub created: Option<AttrView>,
    pub last_updated: Option<AttrView>,
    pub updated_by: Option<AttrView>,
    pub parent: Option<AttrView>,
}

pub open spec fn opt_attr_view(a: Option<AttrValue>) -> Option<AttrView> {
    match a {
        Some(v) => Some(v@),
        None => None,
    }
}

impl View for FlatItem {
    type V = FlatItemView;

    open spec fn view(&self) -> FlatItemView {
        FlatItemView {
            pk: opt_attr_view(self.pk),
            sk: opt_attr_view(self.sk),
            title: opt_attr_view(self.title),
            description: opt_attr_view(self.description),
            created: opt_attr_view(self.created),
            last_updated: opt_attr_view(self.last_updated),
            updated_by: opt_attr_view(self.updated_by),
            parent: opt_attr_view(self.parent),
        }
    }
}

impl DeepView for FlatItem {
    type V = FlatItemView;

    open spec fn deep_view(&self) -> FlatItemView {
        self.view()
    }
}

/// The string carried by an attribute, if it is present and a string.
pub open spec fn attr_string(a: Option<AttrView>) -> Option<Seq<char>> {
    match a {
        Some(AttrView::S(s)) => Some(s),
        _ => None,
    }
}

/// The number carried by an attribute, if it is present and numeric.
pub open spec fn attr_number(a: Option<AttrView>) -> Option<int> {
    match a {
        Some(AttrView::N(n)) => Some(n),
        _ => None,
    }
}

/// The item's type tag, if its `PK` attribute is a present string.
pub open spec fn item_tag(i: FlatItemView) -> Option<Seq<char>> {
    attr_string(i.pk)
}

/// The item's sort key, if its `SK` attribute is a present string.
pub open spec fn item_sk(i: FlatItemView) -> Option<Seq<char>> {
    attr_string(i.sk)
}

/// The item's parent pointer, if its `parent` attribute is a present
/// string.
pub open spec fn item_parent(i: FlatItemView) -> Option<Seq<char>> {
    attr_string(i.parent)
}

fn clone_attr(a: &Option<AttrValue>) -> (r: Option<AttrValue>)
    ensures
        opt_attr_view(r) == opt_attr_view(*a),
{
    match a {
        Some(AttrValue::S(s)) => Some(AttrValue::S(s.clone())),
        Some(AttrValue::N(n)) => Some(AttrValue::N(*n)),
        None => None,
    }
}

impl FlatItem {
    /// An item of the same value, attribute by attribute.
    pub fn duplicate(&self) -> (r: FlatItem)
        ensures
            r@ == self@,
    {
        FlatItem {
            pk: clone_attr(&self.pk),
            sk: clone_attr(&self.sk),
            title: clone_attr(&self.title),
            description: clone_attr(&self.description),
            created: clone_attr(&self.created),
            last_updated: clone_attr(&self.last_updated),
            updated_by: clone_attr(&self.updated_by),
            parent: clone_attr(&self.parent),
        }
    }

    /// The string carried by the item's `SK` attribute, when present.
    pub fn sk_str(&self) -> (r: Option<&String>)
        ensures
            match r {
                Some(s) => item_sk(self@) == Some(s@),
                None => item_sk(self@) is None,
            },
    {
        match &self.sk {
            Some(AttrValue::S(s)) => Some(s),
            _ => None,
        }
    }

    /// The string carried by the item's `PK` attribute, when present.
    pub fn pk_str(&self) -> (r: Option<&String>)
        ensures
            match r {
                Some(s) => item_tag(self@) == Some(s@),
                None => item_tag(self@) is None,
            },
    {
        match &self.pk {
            Some(AttrValue::S(s)) => Some(s),
            _ => None,
        }
    }

    /// The string carried by the item's `parent` attribute, when present.
    pub fn parent_str(&self) -> (r: Option<&String>)
        ensures
            match r {
                Some(s) => item_parent(self@) == Some(s@),
                None => item_parent(self@) is None,
            },
    {
        match &self.parent {
            Some(AttrValue::S(s)) => Some(s),
            _ => None,
        }
    }
}

} // verus!
