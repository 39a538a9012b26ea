use vstd::prelude::*;
use crate::strutil::{lex_lt, str_eq};

verus! {

/// Information about a chest.
pub struct ChestInfo {
    pub name: String,
    pub identifier: String,
    pub category_tag: String,
    pub extension_module: Option<String>,
    pub version: String,
    pub start_url: String,
    pub light_mode: Option<ThemeAdjustment>,
    pub dark_mode: Option<ThemeAdjustment>,
}

/// List of adjustments to apply for a given theme.
pub struct ThemeAdjustment {
    pub file_replacements: Vec<FileReplacementRule>,
}

/// Rule for replacing file paths when reading from the chest, under the
/// path transformation rule of the chest store.
pub struct FileReplacementRule {
    pub pattern: String,
    pub replacement: String,
}

/// List of items contained in a chest along with the information about
/// the chest.
pub struct ChestContents {
    pub info: ChestInfo,
    pub items: Vec<ChestItem>,
}

/// A single item contained in a chest. May contain other items.
pub enum ChestItem {
    Module(Box<Module>),
    Group(Box<Group>),
    Page(Box<Page>),
    Object(Box<Object>),
}

/// Information about a module in a chest.
pub struct ModuleInfo {
    pub name: String,
    pub full_name: String,
    pub url: Option<String>,
}

/// A module contained within a chest: a collection of items within a
/// namespace.
pub struct Module {
    pub info: ModuleInfo,
    pub contents: Vec<ChestItem>,
}

/// Information about a group in a chest.
pub struct GroupInfo {
    pub name: String,
    pub url: Option<String>,
}

/// A named group of items contained within a chest.
pub struct Group {
    pub info: GroupInfo,
    pub contents: Vec<ChestItem>,
}

/// A text page contained within a chest, with its table of contents.
pub struct Page {
    pub title: String,
    pub url: String,
    pub contents: Vec<PageItem>,
}

/// A table of contents item for a page. May contain other items.
pub enum PageItem {
    Category(Box<PageCategory>),
    Link(PageLink),
}

/// A category within the table of contents for a page.
pub struct PageCategory {
    pub title: String,
    pub url: Option<String>,
    pub contents: Vec<PageItem>,
}

/// A single link for the table of contents.
pub struct PageLink {
    pub title: String,
    pub url: String,
}

/// Information about an object in a chest.
pub struct ObjectInfo {
    pub name: String,
    pub full_name: String,
    pub declaration: Option<String>,
    pub url: Option<String>,
    pub object_type: ObjectType,
    pub bases: Vec<ChestPath>,
}

/// A programming language object contained within a chest.
pub struct Object {
    pub info: ObjectInfo,
    pub contents: Vec<ChestItem>,
}

/// Type of programming language object.
#[derive(Clone, Copy, PartialEq, Eq, Structural, Debug)]
pub enum ObjectType {
    Class,
    Struct,
    Union,
    Object,
    Enum,
    Value,
    Variant,
    Trait,
    TraitImplementation,
    Interface,
    Function,
    Method,
    Variable,
    Member,
    Field,
    Constant,
    Property,
    Typedef,
    Namespace,
}

/// Type of element in a chest path.
#[derive(Clone, Copy, PartialEq, Eq, Structural, Debug)]
pub enum ChestPathElementType {
    Module,
    Group,
    Page,
    Object,
}

/// A single element in a chest path.
#[derive(Clone, Debug)]
pub struct ChestPathElement {
    pub element_type: ChestPathElementType,
    pub name: String,
}

/// Path to an item in a chest.
#[derive(Clone, Debug)]
pub struct ChestPath {
    pub elements: Vec<ChestPathElement>,
}

/// A single search result within a chest.
pub struct ChestSearchResult {
    pub path: ChestPath,
    pub score: usize,
}

/// The mathematical value of a path element: its type and the
/// characters of its name.
pub open spec fn element_model(e: ChestPathElement) -> (ChestPathElementType, Seq<char>) {
    (e.element_type, e.name@)
}

/// The mathematical value of a path.
pub open spec fn path_model(p: ChestPath) -> Seq<(ChestPathElementType, Seq<char>)> {
    Seq::new(p.elements@.len(), |i: int| element_model(p.elements@[i]))
}

/// The rank by which path element types order.
pub open spec fn spec_type_rank(t: ChestPathElementType) -> int {
    match t {
        ChestPathElementType::Module => 0,
        ChestPathElementType::Group => 1,
        ChestPathElementType::Page => 2,
        ChestPathElementType::Object => 3,
    }
}

/// The order on path elements: by name, then by element type.
pub open spec fn element_model_lt(
    a: (ChestPathElementType, Seq<char>),
    b: (ChestPathElementType, Seq<char>),
) -> bool {
    lex_lt(a.1, b.1) || (a.1 == b.1 && spec_type_rank(a.0) < spec_type_rank(b.0))
}

/// The rank of a path element type in the order on elements.
pub fn type_rank(t: ChestPathElementType) -> (r: u8)
    ensures
        r as int == spec_type_rank(t),
{
    match t {
        ChestPathElementType::Module => 0,
        ChestPathElementType::Group => 1,
        ChestPathElementType::Page => 2,
        ChestPathElementType::Object => 3,
    }
}

/// Equality of two path elements: both fields match.
pub fn element_eq(a: &ChestPathElement, b: &ChestPathElement) -> (r: bool)
    ensures
        r == (element_model(*a) == element_model(*b)),
{
    let r = a.element_type == b.element_type && str_eq(a.name.as_str(), b.name.as_str());
    proof {
        if r {
            assert(element_model(*a) == element_model(*b));
        }
    }
    r
}

/// Strict order on path elements: by name ascending, then element type
/// ascending.
pub fn element_lt(a: &ChestPathElement, b: &ChestPathElement) -> (r: bool)
    ensures
        r == element_model_lt(element_model(*a), element_model(*b)),
{
    if crate::strutil::str_lt(a.name.as_str(), b.name.as_str()) {
        true
    } else if str_eq(a.name.as_str(), b.name.as_str()) {
        type_rank(a.element_type) < type_rank(b.element_type)
    } else {
        false
    }
}

impl ChestItem {
    /// Name of the chest item.
    pub fn name(&self) -> (r: &str)
        ensures
            r@ == self.spec_name(),
    {
        match self {
            ChestItem::Module(module) => module.info.name.as_str(),
            ChestItem::Group(group) => group.info.name.as_str(),
            ChestItem::Page(page) => page.title.as_str(),
            ChestItem::Object(object) => object.info.name.as_str(),
        }
    }

    /// The name of the item: the title for a page, the name otherwise.
    pub open spec fn spec_name(self) -> Seq<char> {
        match self {
            ChestItem::Module(module) => module.info.name@,
            ChestItem::Group(group) => group.info.name@,
            ChestItem::Page(page) => page.title@,
            ChestItem::Object(object) => object.info.name@,
        }
    }

    /// The items contained in this item. Pages contain no chest items.
    pub fn contents(&self) -> (r: &[ChestItem])
        ensures
            r@ == self.spec_contents(),
    {
        match self {
            ChestItem::Module(module) => module.contents.as_slice(),
            ChestItem::Group(group) => group.contents.as_slice(),
            ChestItem::Page(_) => &[],
            ChestItem::Object(object) => object.contents.as_slice(),
        }
    }

    /// The contained items, empty for a page.
    pub open spec fn spec_contents(self) -> Seq<ChestItem> {
        match self {
            ChestItem::Module(module) => module.contents@,
            ChestItem::Group(group) => group.contents@,
            ChestItem::Page(_) => Seq::<ChestItem>::empty(),
            ChestItem::Object(object) => object.contents@,
        }
    }

    /// Mutable list of items contained in a chest item, when it can
    /// contain items.
    pub fn contents_mut(&mut self) -> (r: Option<&mut Vec<ChestItem>>)
        ensures
            (*old(self)) is Page <==> r is None,
    {
        match self {
            ChestItem::Module(module) => Some(&mut module.contents),
            ChestItem::Group(group) => Some(&mut group.contents),
            ChestItem::Page(_) => None,
            ChestItem::Object(object) => Some(&mut object.contents),
        }
    }

    /// Type of the chest item.
    pub fn element_type(&self) -> (r: ChestPathElementType)
        ensures
            r == self.spec_element_type(),
    {
        match self {
            ChestItem::Module(_) => ChestPathElementType::Module,
            ChestItem::Group(_) => ChestPathElementType::Group,
            ChestItem::Page(_) => ChestPathElementType::Page,
            ChestItem::Object(_) => ChestPathElementType::Object,
        }
    }

    /// The path element type of the item.
    pub open spec fn spec_element_type(self) -> ChestPathElementType {
        match self {
            ChestItem::Module(_) => ChestPathElementType::Module,
            ChestItem::Group(_) => ChestPathElementType::Group,
            ChestItem::Page(_) => ChestPathElementType::Page,
            ChestItem::Object(_) => ChestPathElementType::Object,
        }
    }

    /// Gets the path element that references this chest item.
    pub fn as_path_element(&self) -> (r: ChestPathElement)
        ensures
            element_model(r) == (self.spec_element_type(), self.spec_name()),
    {
        ChestPathElement {
            element_type: self.element_type(),
            name: self.name().to_owned(),
        }
    }

    /// Checks whether this chest item matches the given path element.
    pub fn matches_path_element(&self, element: &ChestPathElement) -> (r: bool)
        ensures
            r == (element_model(*element) == (self.spec_element_type(), self.spec_name())),
    {
        let r = element.element_type == self.element_type() && str_eq(
            element.name.as_str(),
            self.name(),
        );
        proof {
            if r {
                assert(element_model(*element) == (
                    self.spec_element_type(),
                    self.spec_name(),
                ));
            }
        }
        r
    }
}

impl ChestPath {
    /// Path to the root of the chest.
    pub fn root() -> (r: Self)
        ensures
            path_model(r).len() == 0,
    {
        let r = ChestPath { elements: Vec::new() };
        proof {
            assert(path_model(r) =~= Seq::<(ChestPathElementType, Seq<char>)>::empty());
        }
        r
    }

    /// Returns `true` if this path is a parent of `other`: every element
    /// of this path stands at the same place in the other.
    pub fn is_parent_of(&self, other: &Self) -> (r: bool)
        ensures
            r == (path_model(*self).len() <= path_model(*other).len() && path_model(
                *self,
            ) == path_model(*other).take(path_model(*self).len() as int)),
    {
        if self.elements.len() > other.elements.len() {
            proof {
                assert(path_model(*self).len() > path_model(*other).len());
            }
            return false;
        }
        let mut i: usize = 0;
        while i < self.elements.len()
            invariant
                i <= path_model(*self).len(),
                path_model(*self).len() <= path_model(*other).len(),
                forall|j: int|
                    0 <= j < i ==> path_model(*self)[j] == #[trigger] path_model(
                        *other,
                    )[j],
            decreases self.elements@.len() - i,
        {
            if !element_eq(&self.elements[i], &other.elements[i]) {
                proof {
                    assert(path_model(*self)[i as int] != path_model(*other)[i as int]);
                    assert(path_model(*other).take(path_model(*self).len() as int)[
                        i as int
                    ] == path_model(*other)[i as int]);
                }
                return false;
            }
            i += 1;
        }
        proof {
            assert(path_model(*self) =~= path_model(*other).take(
                path_model(*self).len() as int,
            ));
        }
        true
    }

    /// The path as text: `/`-separated element names, `/` for the root.
    pub fn display_string(&self) -> (r: String)
        ensures
            true,
    {
        if self.elements.len() == 0 {
            return "/".to_owned();
        }
        let mut r = String::new();
        let mut i: usize = 0;
        while i < self.elements.len()
            decreases self.elements@.len() - i,
        {
            r.append("/");
            r.append(self.elements[i].name.as_str());
            i += 1;
        }
        r
    }
}


/// Mints a fresh chest identifier.
///
/// Relies on `uuid::Uuid::new_v4` and its simple formatter: a random
/// identifier rendered as 32 lowercase hexadecimal characters.
#[verifier::external_body]
fn new_identifier() -> (r: String)
    ensures
        r@.len() == 32,
{
    uuid::Uuid::new_v4().simple().to_string()
}

/// Copies a chest path.
pub fn clone_path(p: &ChestPath) -> (c: ChestPath)
    ensures
        c.elements@ == p.elements@,
{
    let mut elements: Vec<ChestPathElement> = Vec::new();
    let mut i: usize = 0;
    while i < p.elements.len()
        invariant
            i <= p.elements@.len(),
            elements@ == p.elements@.take(i as int),
        decreases p.elements@.len() - i,
    {
        let e = &p.elements[i];
        elements.push(ChestPathElement { element_type: e.element_type, name: e.name.clone() });
        proof {
            assert(ChestPathElement {
                element_type: p.elements@[i as int].element_type,
                name: p.elements@[i as int].name,
            } == p.elements@[i as int]);
            assert(elements@ =~= p.elements@.take(i + 1));
        }
        i += 1;
    }
    proof {
        assert(p.elements@.take(p.elements@.len() as int) =~= p.elements@);
    }
    ChestPath { elements }
}

impl ChestContents {
    /// Create a new empty chest contents record, minting a fresh
    /// identifier.
    pub fn new(
        name: &str,
        category_tag: &str,
        extension_module: Option<&str>,
        version: &str,
        start_url: &str,
        light_mode: Option<ThemeAdjustment>,
        dark_mode: Option<ThemeAdjustment>,
    ) -> (r: Self)
        ensures
            r.info.name@ == name@,
            r.info.category_tag@ == category_tag@,
            (match (extension_module, r.info.extension_module) {
                (Some(e), Some(re)) => re@ == e@,
                (None, None) => true,
                _ => false,
            }),
            r.info.version@ == version@,
            r.info.start_url@ == start_url@,
            r.info.light_mode == light_mode,
            r.info.dark_mode == dark_mode,
            r.info.identifier@.len() == 32,
            r.items@.len() == 0,
    {
        let extension = match extension_module {
            Some(e) => Some(e.to_owned()),
            None => None,
        };
        ChestContents {
            info: ChestInfo {
                name: name.to_owned(),
                identifier: new_identifier(),
                category_tag: category_tag.to_owned(),
                extension_module: extension,
                version: version.to_owned(),
                start_url: start_url.to_owned(),
                light_mode,
                dark_mode,
            },
            items: Vec::new(),
        }
    }
}

} // verus!
