//! What a record type declares in its `name_path` attributes, and the
//! loader that such a declaration stands for.
//!
//! The type itself carries one `name_path` with the name of the root of its
//! hierarchy. Each field carries one with the names that lead from the root
//! to the field's entity; the empty list is the root itself.

use crate::helpers::clone_path;
use crate::plugin::{DescendantLoader, DescendantLoaderView};
use vstd::prelude::*;
use vstd::string::StringExecFns;

verus! {

/// What an attribute looks like to specifications.
pub struct AttributeView {
    pub name: Seq<char>,
    pub list: Option<Seq<Seq<char>>>,
}

/// An attribute as written on a type or on a field: its name and, where it
/// has the form of a list, the strings listed.
#[derive(Debug, Clone, PartialEq, Eq)]
pub struct Attribute {
    pub name: String,
    pub list: Option<Vec<String>>,
}

impl View for Attribute {
    type V = AttributeView;

    open spec fn view(&self) -> AttributeView {
        AttributeView {
            name: self.name@,
            list: match self.list {
                Some(list) => Some(list.deep_view()),
                None => None,
            },
        }
    }
}

/// What a field looks like to specifications.
pub struct FieldView {
    pub ident: Seq<char>,
    pub attrs: Seq<AttributeView>,
}

/// A named field of a record type, with its attributes.
#[derive(Debug, Clone, PartialEq, Eq)]
pub struct Field {
    pub ident: String,
    pub attrs: Vec<Attribute>,
}

impl View for Field {
    type V = FieldView;

    open spec fn view(&self) -> FieldView {
        FieldView { ident: self.ident@, attrs: attributes_view(self.attrs@) }
    }
}

/// The views of a list of attributes.
pub open spec fn attributes_view(attrs: Seq<Attribute>) -> Seq<AttributeView> {
    attrs.map_values(|attribute: Attribute| attribute@)
}

/// The views of a list of fields.
pub open spec fn fields_view(fields: Seq<Field>) -> Seq<FieldView> {
    fields.map_values(|field: Field| field@)
}

/// Why a declaration does not stand for a loader.
#[derive(Debug, Clone, Copy, PartialEq, Eq, Structural)]
pub enum DeclarationError {
    /// A `name_path` attribute is there but is not a list.
    WrongType,
    /// The type carries no `name_path`, so the root has no name.
    NoRootNamePath,
    /// The `name_path` of the type does not hold exactly one name.
    RootNamePathNotOneName,
    /// The field at this position carries no `name_path`.
    FieldWithoutNamePath(usize),
}

/// What is said of `error`, about an attribute that the caller calls
/// `attribute_name`.
pub open spec fn message_text(error: DeclarationError, attribute_name: Seq<char>) -> Seq<char> {
    match error {
        DeclarationError::WrongType => attribute_name + " has the wrong type"@,
        DeclarationError::NoRootNamePath =>
            "no root name_path is defined, define the name of the root element (The first element in blender in the exported collection)"@,
        DeclarationError::RootNamePathNotOneName => "the root name_path has to hold one name"@,
        DeclarationError::FieldWithoutNamePath(_) =>
            "Field's that are not name_path's are not premitted"@,
    }
}

impl DeclarationError {
    /// What to tell the author of the declaration.
    pub fn message(&self, attribute_name: &str) -> (text: String)
        ensures
            text@ == message_text(*self, attribute_name@),
    {
        match self {
            DeclarationError::WrongType => {
                let mut text = attribute_name.to_owned();
                text.append(" has the wrong type");
                text
            },
            DeclarationError::NoRootNamePath =>
                "no root name_path is defined, define the name of the root element (The first element in blender in the exported collection)".to_owned(),
            DeclarationError::RootNamePathNotOneName =>
                "the root name_path has to hold one name".to_owned(),
            DeclarationError::FieldWithoutNamePath(_) =>
                "Field's that are not name_path's are not premitted".to_owned(),
        }
    }
}

/// The first attribute at or after `from` that is called `name`.
pub open spec fn first_attribute(attrs: Seq<AttributeView>, name: Seq<char>, from: nat) -> Option<
    AttributeView,
>
    decreases attrs.len() - from,
{
    if from >= attrs.len() {
        None
    } else if attrs[from as int].name == name {
        Some(attrs[from as int])
    } else {
        first_attribute(attrs, name, from + 1)
    }
}

/// The list of the first attribute called `name`: `Ok(None)` when there is
/// no such attribute, an error when the first one is not a list.
pub open spec fn attribute_list(attrs: Seq<AttributeView>, name: Seq<char>) -> Result<
    Option<Seq<Seq<char>>>,
    DeclarationError,
> {
    match first_attribute(attrs, name, 0) {
        None => Ok(None),
        Some(attribute) => match attribute.list {
            Some(list) => Ok(Some(list)),
            None => Err(DeclarationError::WrongType),
        },
    }
}

/// The root name that the attributes of a type declare.
pub open spec fn declared_root(attrs: Seq<AttributeView>) -> Result<Seq<char>, DeclarationError> {
    match attribute_list(attrs, "name_path"@) {
        Err(error) => Err(error),
        Ok(None) => Err(DeclarationError::NoRootNamePath),
        Ok(Some(list)) => if list.len() == 1 {
            Ok(list[0])
        } else {
            Err(DeclarationError::RootNamePathNotOneName)
        },
    }
}

/// The paths that the first `count` fields declare, in their order, or what
/// is wrong with the first of them that declares none.
pub open spec fn declared_paths(fields: Seq<FieldView>, count: nat) -> Result<
    Seq<Seq<Seq<char>>>,
    DeclarationError,
>
    decreases count,
{
    if count == 0 {
        Ok(Seq::empty())
    } else {
        match declared_paths(fields, (count - 1) as nat) {
            Err(error) => Err(error),
            Ok(name_paths) => match attribute_list(fields[count - 1].attrs, "name_path"@) {
                Err(error) => Err(error),
                Ok(None) => Err(DeclarationError::FieldWithoutNamePath((count - 1) as usize)),
                Ok(Some(name_path)) => Ok(name_paths.push(name_path)),
            },
        }
    }
}

/// The loader that a declaration stands for. What is wrong with the root is
/// reported before what is wrong with a field.
pub open spec fn declared_loader(attrs: Seq<AttributeView>, fields: Seq<FieldView>) -> Result<
    DescendantLoaderView,
    DeclarationError,
> {
    match declared_root(attrs) {
        Err(error) => Err(error),
        Ok(root_entity_name) => match declared_paths(fields, fields.len()) {
            Err(error) => Err(error),
            Ok(name_paths) => Ok(DescendantLoaderView { root_entity_name, name_paths }),
        },
    }
}

/// Reads the list of the first `name_path` attribute, and says so where
/// that attribute is not a list. `attribute_name` is the name under which
/// the caller reports the attribute, as in `DeclarationError::message`; it
/// has no part in what is looked for.
pub fn try_read_attribute<'a>(attrs: &'a Vec<Attribute>, attribute_name: &str) -> (read: Result<
    Option<&'a Vec<String>>,
    DeclarationError,
>)
    ensures
        match read {
            Ok(Some(list)) => attribute_list(attributes_view(attrs@), "name_path"@) == Ok::<
                Option<Seq<Seq<char>>>,
                DeclarationError,
            >(Some(list.deep_view())),
            Ok(None) => attribute_list(attributes_view(attrs@), "name_path"@) == Ok::<
                Option<Seq<Seq<char>>>,
                DeclarationError,
            >(None),
            Err(error) => attribute_list(attributes_view(attrs@), "name_path"@) == Err::<
                Option<Seq<Seq<char>>>,
                DeclarationError,
            >(error),
        },
{
    let name = "name_path".to_owned();
    let ghost views = attributes_view(attrs@);
    let mut k: usize = 0;
    while k < attrs.len()
        invariant
            k <= attrs.len(),
            name@ == "name_path"@,
            views == attributes_view(attrs@),
            first_attribute(views, name@, 0) == first_attribute(views, name@, k as nat),
        decreases attrs.len() - k,
    {
        assert(views[k as int] == attrs@[k as int]@);
        if attrs[k].name == name {
            return match &attrs[k].list {
                Some(list) => Ok(Some(list)),
                None => Err(DeclarationError::WrongType),
            };
        }
        k += 1;
    }
    Ok(None)
}

/// Turns the declaration of a record type into its loader: the root name
/// from the attributes of the type, one path per field from the attributes
/// of the fields, in the order of the fields. A declaration that stands
/// for no loader is refused with what is wrong with it.
pub fn try_entity_collector_target(attrs: &Vec<Attribute>, fields: &Vec<Field>) -> (loader: Result<
    DescendantLoader,
    DeclarationError,
>)
    ensures
        match loader {
            Ok(loader) => declared_loader(attributes_view(attrs@), fields_view(fields@)) == Ok::<
                DescendantLoaderView,
                DeclarationError,
            >(loader@),
            Err(error) => declared_loader(attributes_view(attrs@), fields_view(fields@)) == Err::<
                DescendantLoaderView,
                DeclarationError,
            >(error),
        },
{
    let root_entity_name = match try_read_attribute(attrs, "name_path") {
        Err(error) => {
            return Err(error);
        },
        Ok(None) => {
            return Err(DeclarationError::NoRootNamePath);
        },
        Ok(Some(list)) => {
            if list.len() != 1 {
                return Err(DeclarationError::RootNamePathNotOneName);
            }
            list[0].clone()
        },
    };
    let ghost views = fields_view(fields@);
    let mut name_paths: Vec<Vec<String>> = Vec::new();
    let mut k: usize = 0;
    assert(name_paths.deep_view() =~= Seq::<Seq<Seq<char>>>::empty());
    while k < fields.len()
        invariant
            k <= fields.len(),
            views == fields_view(fields@),
            declared_root(attributes_view(attrs@)) == Ok::<Seq<char>, DeclarationError>(
                root_entity_name@,
            ),
            declared_paths(views, k as nat) == Ok::<Seq<Seq<Seq<char>>>, DeclarationError>(
                name_paths.deep_view(),
            ),
        decreases fields.len() - k,
    {
        assert(views[k as int] == fields@[k as int]@);
        let ghost before = name_paths.deep_view();
        match try_read_attribute(&fields[k].attrs, "name_path") {
            Err(error) => {
                proof {
                    assert(declared_paths(views, (k + 1) as nat) == Err::<
                        Seq<Seq<Seq<char>>>,
                        DeclarationError,
                    >(error));
                    lemma_declared_paths_stay_wrong(views, (k + 1) as nat, fields.len() as nat);
                }
                return Err(error);
            },
            Ok(None) => {
                proof {
                    assert(declared_paths(views, (k + 1) as nat) == Err::<
                        Seq<Seq<Seq<char>>>,
                        DeclarationError,
                    >(DeclarationError::FieldWithoutNamePath(k)));
                    lemma_declared_paths_stay_wrong(views, (k + 1) as nat, fields.len() as nat);
                }
                return Err(DeclarationError::FieldWithoutNamePath(k));
            },
            Ok(Some(list)) => {
                let name_path = clone_path(list);
                name_paths.push(name_path);
                assert(name_paths.deep_view() =~= before.push(name_path.deep_view()));
            },
        }
        k += 1;
    }
    Ok(DescendantLoader::new(root_entity_name, name_paths))
}

/// Reads the list of the first `name_path` attribute: `None` when there is
/// no `name_path` among the attributes. The first `name_path`, where there
/// is one, has to be a list; `try_read_attribute` tells. `attribute_name`
/// has no part in what is looked for.
pub fn read_attribute<'a>(attrs: &'a Vec<Attribute>, attribute_name: &str) -> (read: Option<
    &'a Vec<String>,
>)
    requires
        attribute_list(attributes_view(attrs@), "name_path"@) is Ok,
    ensures
        attribute_list(attributes_view(attrs@), "name_path"@) == Ok::<
            Option<Seq<Seq<char>>>,
            DeclarationError,
        >(
            match read {
                Some(list) => Some(list.deep_view()),
                None => None,
            },
        ),
{
    match try_read_attribute(attrs, attribute_name) {
        Ok(read) => read,
        Err(_) => None,
    }
}

/// The loader that the declaration of a record type stands for. The
/// declaration has to stand for one: the type names its root in one
/// `name_path`, and every field has a `name_path`;
/// `try_entity_collector_target` tells.
pub fn entity_collector_target(attrs: &Vec<Attribute>, fields: &Vec<Field>) -> (loader:
    DescendantLoader)
    requires
        declared_loader(attributes_view(attrs@), fields_view(fields@)) is Ok,
    ensures
        declared_loader(attributes_view(attrs@), fields_view(fields@)) == Ok::<
            DescendantLoaderView,
            DeclarationError,
        >(loader@),
{
    try_entity_collector_target(attrs, fields).unwrap()
}

/// Once the first `count` fields hold something wrong, so do the first
/// `more`, and it is the same thing.
proof fn lemma_declared_paths_stay_wrong(fields: Seq<FieldView>, count: nat, more: nat)
    requires
        count <= more,
        declared_paths(fields, count) is Err,
    ensures
        declared_paths(fields, more) == declared_paths(fields, count),
    decreases more - count,
{
    if count < more {
        lemma_declared_paths_stay_wrong(fields, count, (more - 1) as nat);
    }
}

} // verus!
