//! The manifest of a blog: five fields, each required, none other allowed.

use crate::outcome::result_view;
use crate::text::text_equal;
use crate::yaml::read_document;
use crate::yaml::yaml_document;
use crate::yaml::Document;
use crate::yaml::DocumentView;
use crate::yaml::PairView;
use crate::yaml::Scalar;
use crate::yaml::ScalarView;
use vstd::prelude::*;

verus! {

/// The metadata that makes a directory a blog.
#[derive(Clone, Debug, PartialEq, Eq)]
pub struct Manifest {
    /// The full title.
    pub title: String,
    /// The title for an index of blogs.
    pub index_title: String,
    /// A summary in free text.
    pub description: String,
    /// Who maintains the blog.
    pub maintained_by: String,
    /// Whether the posts of this blog need a team.
    pub requires_team: bool,
}

/// What a [`Manifest`] stands for.
pub struct ManifestView {
    pub title: Seq<char>,
    pub index_title: Seq<char>,
    pub description: Seq<char>,
    pub maintained_by: Seq<char>,
    pub requires_team: bool,
}

impl View for Manifest {
    type V = ManifestView;

    open spec fn view(&self) -> ManifestView {
        ManifestView {
            title: self.title@,
            index_title: self.index_title@,
            description: self.description@,
            maintained_by: self.maintained_by@,
            requires_team: self.requires_team,
        }
    }
}

/// The fields of a manifest, in the order in which a manifest is checked for them.
#[derive(Clone, Copy, Debug, PartialEq, Eq, Structural)]
pub enum Field {
    Title,
    IndexTitle,
    Description,
    MaintainedBy,
    RequiresTeam,
}

impl Field {
    /// The key under which a document holds the field.
    pub open spec fn key(self) -> Seq<char> {
        match self {
            Field::Title => "title"@,
            Field::IndexTitle => "index-title"@,
            Field::Description => "description"@,
            Field::MaintainedBy => "maintained-by"@,
            Field::RequiresTeam => "requires-team"@,
        }
    }

    /// The key under which a document holds the field.
    pub fn name(self) -> (name: &'static str)
        ensures
            name@ == self.key(),
    {
        match self {
            Field::Title => "title",
            Field::IndexTitle => "index-title",
            Field::Description => "description",
            Field::MaintainedBy => "maintained-by",
            Field::RequiresTeam => "requires-team",
        }
    }

    /// The field that a document holds under the key `name`, if it is one of the five.
    pub open spec fn named(name: Seq<char>) -> Option<Field> {
        if name == Field::Title.key() {
            Some(Field::Title)
        } else if name == Field::IndexTitle.key() {
            Some(Field::IndexTitle)
        } else if name == Field::Description.key() {
            Some(Field::Description)
        } else if name == Field::MaintainedBy.key() {
            Some(Field::MaintainedBy)
        } else if name == Field::RequiresTeam.key() {
            Some(Field::RequiresTeam)
        } else {
            None
        }
    }

    /// Finds the field that a document holds under the key `name`.
    pub fn of_name(name: &str) -> (field: Option<Field>)
        ensures
            field == Field::named(name@),
    {
        if text_equal(name, Field::Title.name()) {
            Some(Field::Title)
        } else if text_equal(name, Field::IndexTitle.name()) {
            Some(Field::IndexTitle)
        } else if text_equal(name, Field::Description.name()) {
            Some(Field::Description)
        } else if text_equal(name, Field::MaintainedBy.name()) {
            Some(Field::MaintainedBy)
        } else if text_equal(name, Field::RequiresTeam.name()) {
            Some(Field::RequiresTeam)
        } else {
            None
        }
    }

    /// Whether `value` is of the kind that the field holds: a boolean for
    /// [`Field::RequiresTeam`], a string for the others.
    pub open spec fn fits(self, value: ScalarView) -> bool {
        match self {
            Field::RequiresTeam => value is Flag,
            _ => value is Text,
        }
    }
}

/// Each field is found under its own key, so that no two of the five keys are equal.
pub proof fn lemma_field_key(field: Field)
    ensures
        Field::named(field.key()) == Some(field),
{
    reveal_strlit("title");
    reveal_strlit("index-title");
    reveal_strlit("description");
    reveal_strlit("maintained-by");
    reveal_strlit("requires-team");
    assert("title"@.len() == 5);
    assert("index-title"@.len() == 11);
    assert("description"@[0] == 'd');
    assert("maintained-by"@.len() == 13);
    assert("maintained-by"@[0] == 'm');
    assert("requires-team"@[0] == 'r');
}

/// Why a directory's manifest gives no [`Manifest`].
#[derive(Clone, Debug, PartialEq, Eq)]
pub enum ManifestError {
    /// The directory holds no manifest file.
    NoFile,
    /// The manifest file could not be read; the message says why.
    Unreadable(String),
    /// The text is not YAML; the message says why.
    Syntax(String),
    /// The document is not a mapping.
    NotAMapping,
    /// An entry's key is none of the five.
    UnknownKey(Scalar),
    /// A second entry for one field.
    Repeated(Field),
    /// An entry whose value is not of the field's kind.
    Mistyped(Field),
    /// No entry for the field.
    Absent(Field),
}

/// What a [`ManifestError`] stands for.
pub enum ManifestErrorView {
    NoFile,
    Unreadable(Seq<char>),
    Syntax(Seq<char>),
    NotAMapping,
    UnknownKey(ScalarView),
    Repeated(Field),
    Mistyped(Field),
    Absent(Field),
}

impl View for ManifestError {
    type V = ManifestErrorView;

    open spec fn view(&self) -> ManifestErrorView {
        match self {
            ManifestError::NoFile => ManifestErrorView::NoFile,
            ManifestError::Unreadable(message) => ManifestErrorView::Unreadable(message@),
            ManifestError::Syntax(message) => ManifestErrorView::Syntax(message@),
            ManifestError::NotAMapping => ManifestErrorView::NotAMapping,
            ManifestError::UnknownKey(key) => ManifestErrorView::UnknownKey(key@),
            ManifestError::Repeated(field) => ManifestErrorView::Repeated(*field),
            ManifestError::Mistyped(field) => ManifestErrorView::Mistyped(*field),
            ManifestError::Absent(field) => ManifestErrorView::Absent(*field),
        }
    }
}

/// The field that an entry with this key is for, if the key is one of the five.
pub open spec fn field_of(key: ScalarView) -> Option<Field> {
    match key {
        ScalarView::Text(name) => Field::named(name),
        _ => None,
    }
}

/// Whether one of the entries before place `i` is for `field`.
pub open spec fn named_before(pairs: Seq<PairView>, i: int, field: Field) -> bool {
    exists|j: int| 0 <= j < i && j < pairs.len() && #[trigger] field_of(pairs[j].key) == Some(field)
}

/// The value of an entry before place `i` that is for `field`.
pub open spec fn value_before(pairs: Seq<PairView>, i: int, field: Field) -> ScalarView {
    let j: int = choose|j: int|
        0 <= j < i && j < pairs.len() && #[trigger] field_of(pairs[j].key) == Some(field);
    pairs[j].value
}

/// What is wrong with the entry at place `i`, if anything: its key is none of the five, or an
/// entry before it is for the same field, or its value is not of the field's kind.
pub open spec fn fault_at(pairs: Seq<PairView>, i: int) -> Option<ManifestErrorView> {
    match field_of(pairs[i].key) {
        None => Some(ManifestErrorView::UnknownKey(pairs[i].key)),
        Some(field) => if named_before(pairs, i, field) {
            Some(ManifestErrorView::Repeated(field))
        } else if !field.fits(pairs[i].value) {
            Some(ManifestErrorView::Mistyped(field))
        } else {
            None
        },
    }
}

/// Whether the entry at place `i` is the first with which something is wrong.
pub open spec fn is_first_fault(pairs: Seq<PairView>, i: int) -> bool {
    &&& 0 <= i < pairs.len()
    &&& fault_at(pairs, i) is Some
    &&& forall|j: int| 0 <= j < i ==> (#[trigger] fault_at(pairs, j)) is None
}

/// Whether some entry is for `field`.
pub open spec fn present(pairs: Seq<PairView>, field: Field) -> bool {
    named_before(pairs, pairs.len() as int, field)
}

/// The first field for which no entry is.
pub open spec fn first_absent(pairs: Seq<PairView>) -> Option<Field> {
    if !present(pairs, Field::Title) {
        Some(Field::Title)
    } else if !present(pairs, Field::IndexTitle) {
        Some(Field::IndexTitle)
    } else if !present(pairs, Field::Description) {
        Some(Field::Description)
    } else if !present(pairs, Field::MaintainedBy) {
        Some(Field::MaintainedBy)
    } else if !present(pairs, Field::RequiresTeam) {
        Some(Field::RequiresTeam)
    } else {
        None
    }
}

/// The string that the entries hold for `field`.
pub open spec fn text_for(pairs: Seq<PairView>, field: Field) -> Seq<char> {
    match value_before(pairs, pairs.len() as int, field) {
        ScalarView::Text(text) => text,
        _ => Seq::empty(),
    }
}

/// The boolean that the entries hold for `field`.
pub open spec fn flag_for(pairs: Seq<PairView>, field: Field) -> bool {
    match value_before(pairs, pairs.len() as int, field) {
        ScalarView::Flag(flag) => flag,
        _ => false,
    }
}

/// The manifest that a document holds. A document that is no mapping holds none. In a
/// mapping the first entry with which something is wrong decides; where all entries are in
/// order, the first field without an entry does; where there is none, the manifest holds
/// for each field the value of its entry.
pub open spec fn manifest_of(document: DocumentView) -> Result<ManifestView, ManifestErrorView> {
    match document {
        DocumentView::Other => Err(ManifestErrorView::NotAMapping),
        DocumentView::Mapping(pairs) => if exists|i: int| is_first_fault(pairs, i) {
            Err(fault_at(pairs, choose|i: int| is_first_fault(pairs, i))->Some_0)
        } else if first_absent(pairs) is Some {
            Err(ManifestErrorView::Absent(first_absent(pairs)->Some_0))
        } else {
            Ok(
                ManifestView {
                    title: text_for(pairs, Field::Title),
                    index_title: text_for(pairs, Field::IndexTitle),
                    description: text_for(pairs, Field::Description),
                    maintained_by: text_for(pairs, Field::MaintainedBy),
                    requires_team: flag_for(pairs, Field::RequiresTeam),
                },
            )
        },
    }
}

/// The manifest that a text holds, read as YAML.
pub open spec fn manifest_in(text: Seq<char>) -> Result<ManifestView, ManifestErrorView> {
    match yaml_document(text) {
        Ok(document) => manifest_of(document),
        Err(message) => Err(ManifestErrorView::Syntax(message)),
    }
}

/// Whether the entries are those of a manifest: each is for one of the five fields and holds
/// a value of its kind, no two are for the same field, and every field has its entry.
pub open spec fn complete(pairs: Seq<PairView>) -> bool {
    &&& forall|i: int|
        0 <= i < pairs.len() ==> ((#[trigger] field_of(pairs[i].key)) matches Some(field)
            && field.fits(pairs[i].value))
    &&& forall|i: int, j: int|
        0 <= i < j < pairs.len() ==> #[trigger] field_of(pairs[i].key) != #[trigger] field_of(
            pairs[j].key,
        )
    &&& forall|field: Field| #[trigger] present(pairs, field)
}

/// What a manifest holds for `field`, as the value of an entry.
pub open spec fn value_in(manifest: ManifestView, field: Field) -> ScalarView {
    match field {
        Field::Title => ScalarView::Text(manifest.title),
        Field::IndexTitle => ScalarView::Text(manifest.index_title),
        Field::Description => ScalarView::Text(manifest.description),
        Field::MaintainedBy => ScalarView::Text(manifest.maintained_by),
        Field::RequiresTeam => ScalarView::Flag(manifest.requires_team),
    }
}

/// Where something is wrong with an entry, there is a first such entry.
pub proof fn lemma_first_fault(pairs: Seq<PairView>, i: int)
    requires
        0 <= i < pairs.len(),
        fault_at(pairs, i) is Some,
    ensures
        exists|k: int| is_first_fault(pairs, k),
    decreases i,
{
    if exists|j: int| 0 <= j < i && (#[trigger] fault_at(pairs, j)) is Some {
        let j: int = choose|j: int| 0 <= j < i && (#[trigger] fault_at(pairs, j)) is Some;
        lemma_first_fault(pairs, j);
    } else {
        assert(is_first_fault(pairs, i));
    }
}

/// A mapping holds a manifest if and only if its entries are complete, and the manifest then
/// holds for each field the value of the field's entry.
pub proof fn lemma_manifest_of_mapping(pairs: Seq<PairView>)
    ensures
        manifest_of(DocumentView::Mapping(pairs)) is Ok <==> complete(pairs),
        manifest_of(DocumentView::Mapping(pairs)) matches Ok(manifest) ==> forall|i: int|
            0 <= i < pairs.len() ==> value_in(manifest, (#[trigger] field_of(pairs[i].key))->Some_0)
                == pairs[i].value,
{
    let made = manifest_of(DocumentView::Mapping(pairs));
    if complete(pairs) {
        assert forall|i: int| 0 <= i < pairs.len() implies (#[trigger] fault_at(pairs, i))
            is None by {
            let field = field_of(pairs[i].key)->Some_0;
            if named_before(pairs, i, field) {
                let j: int = choose|j: int|
                    0 <= j < i && j < pairs.len() && #[trigger] field_of(pairs[j].key) == Some(
                        field,
                    );
                assert(field_of(pairs[j].key) != field_of(pairs[i].key));
            }
        }
        assert(present(pairs, Field::Title));
        assert(present(pairs, Field::IndexTitle));
        assert(present(pairs, Field::Description));
        assert(present(pairs, Field::MaintainedBy));
        assert(present(pairs, Field::RequiresTeam));
        assert(made is Ok);
    }
    if made is Ok {
        assert forall|i: int| 0 <= i < pairs.len() implies (#[trigger] fault_at(pairs, i))
            is None by {
            if fault_at(pairs, i) is Some {
                lemma_first_fault(pairs, i);
            }
        }
        assert forall|i: int, j: int| 0 <= i < j < pairs.len() implies #[trigger] field_of(
            pairs[i].key,
        ) != #[trigger] field_of(pairs[j].key) by {
            assert(fault_at(pairs, i) is None);
            assert(fault_at(pairs, j) is None);
            if field_of(pairs[i].key) == field_of(pairs[j].key) {
                assert(named_before(pairs, j, field_of(pairs[j].key)->Some_0));
            }
        }
        assert forall|i: int| 0 <= i < pairs.len() implies ((#[trigger] field_of(
            pairs[i].key,
        )) matches Some(field) && field.fits(pairs[i].value)) by {
            assert(fault_at(pairs, i) is None);
        }
        assert forall|field: Field| #[trigger] present(pairs, field) by {
            match field {
                Field::Title => {},
                Field::IndexTitle => {},
                Field::Description => {},
                Field::MaintainedBy => {},
                Field::RequiresTeam => {},
            }
        }
        let manifest = made->Ok_0;
        assert forall|i: int| 0 <= i < pairs.len() implies value_in(
            manifest,
            (#[trigger] field_of(pairs[i].key))->Some_0,
        ) == pairs[i].value by {
            let field = field_of(pairs[i].key)->Some_0;
            assert(present(pairs, field));
            let j: int = choose|j: int|
                0 <= j < pairs.len() && j < pairs.len() && #[trigger] field_of(pairs[j].key)
                    == Some(field);
            if i < j {
                assert(field_of(pairs[i].key) != field_of(pairs[j].key));
            } else if j < i {
                assert(field_of(pairs[j].key) != field_of(pairs[i].key));
            }
            assert(value_before(pairs, pairs.len() as int, field) == pairs[i].value);
            assert(fault_at(pairs, i) is None);
        }
    }
}

/// A mapping that lacks the entry of one of the five fields holds no manifest.
pub proof fn lemma_missing_field_fails(pairs: Seq<PairView>, field: Field)
    requires
        !present(pairs, field),
    ensures
        manifest_of(DocumentView::Mapping(pairs)) is Err,
{
    lemma_manifest_of_mapping(pairs);
}

/// A mapping with an entry whose key is none of the five holds no manifest.
pub proof fn lemma_unknown_key_fails(pairs: Seq<PairView>, i: int)
    requires
        0 <= i < pairs.len(),
        field_of(pairs[i].key) is None,
    ensures
        manifest_of(DocumentView::Mapping(pairs)) is Err,
{
    lemma_manifest_of_mapping(pairs);
}

/// A mapping with exactly one entry for each of the five fields, each of the field's kind,
/// holds a manifest, and every field of that manifest is the value of its entry.
pub proof fn lemma_complete_mapping_succeeds(pairs: Seq<PairView>)
    requires
        complete(pairs),
    ensures
        manifest_of(DocumentView::Mapping(pairs)) matches Ok(manifest) && forall|i: int|
            0 <= i < pairs.len() ==> value_in(manifest, (#[trigger] field_of(pairs[i].key))->Some_0)
                == pairs[i].value,
{
    lemma_manifest_of_mapping(pairs);
}

/// What the entries before place `i` hold for `field`.
spec fn held(pairs: Seq<PairView>, i: int, field: Field) -> Option<ScalarView> {
    if named_before(pairs, i, field) {
        Some(value_before(pairs, i, field))
    } else {
        None
    }
}

/// Where nothing is wrong with the entries up to place `i`, the entry at `i` adds its value
/// to what is held for its field, and changes nothing for the other fields.
proof fn lemma_held_next(pairs: Seq<PairView>, i: int, field: Field)
    requires
        0 <= i < pairs.len(),
        forall|j: int| 0 <= j <= i ==> (#[trigger] fault_at(pairs, j)) is None,
    ensures
        held(pairs, i + 1, field) == if field_of(pairs[i].key) == Some(field) {
            Some(pairs[i].value)
        } else {
            held(pairs, i, field)
        },
{
    if field_of(pairs[i].key) == Some(field) {
        assert(named_before(pairs, i + 1, field));
        let j: int = choose|j: int|
            0 <= j < i + 1 && j < pairs.len() && #[trigger] field_of(pairs[j].key) == Some(field);
        if j != i {
            assert(named_before(pairs, i, field));
            assert(fault_at(pairs, i) is Some);
        }
    } else if named_before(pairs, i + 1, field) {
        let j: int = choose|j: int|
            0 <= j < i + 1 && j < pairs.len() && #[trigger] field_of(pairs[j].key) == Some(field);
        assert(named_before(pairs, i, field));
        let k: int = choose|k: int|
            0 <= k < i && k < pairs.len() && #[trigger] field_of(pairs[k].key) == Some(field);
        if j < k {
            assert(named_before(pairs, k, field));
            assert(fault_at(pairs, k) is Some);
        } else if k < j {
            assert(named_before(pairs, j, field));
            assert(fault_at(pairs, j) is Some);
        }
    }
}

/// What a place for a string holds, as the value of an entry.
spec fn text_slot(slot: Option<String>) -> Option<ScalarView> {
    match slot {
        Some(text) => Some(ScalarView::Text(text@)),
        None => None,
    }
}

/// What a place for a boolean holds, as the value of an entry.
spec fn flag_slot(slot: Option<bool>) -> Option<ScalarView> {
    match slot {
        Some(flag) => Some(ScalarView::Flag(flag)),
        None => None,
    }
}

/// Fills the place of a field that holds a string.
fn put_text(slot: &mut Option<String>, field: Field, value: &Scalar) -> (put: Result<
    (),
    ManifestError,
>)
    ensures
        match put {
            Ok(_) => *old(slot) is None && text_slot(*final(slot)) == Some(value@),
            Err(error) => *final(slot) == *old(slot) && error@ == if *old(slot) is Some {
                ManifestErrorView::Repeated(field)
            } else {
                ManifestErrorView::Mistyped(field)
            } && (*old(slot) is Some || !(value@ is Text)),
        },
{
    if slot.is_some() {
        return Err(ManifestError::Repeated(field));
    }
    match value {
        Scalar::Text(text) => {
            *slot = Some(text.clone());
            Ok(())
        },
        _ => Err(ManifestError::Mistyped(field)),
    }
}

/// Fills the place of a field that holds a boolean.
fn put_flag(slot: &mut Option<bool>, field: Field, value: &Scalar) -> (put: Result<
    (),
    ManifestError,
>)
    ensures
        match put {
            Ok(_) => *old(slot) is None && flag_slot(*final(slot)) == Some(value@),
            Err(error) => *final(slot) == *old(slot) && error@ == if *old(slot) is Some {
                ManifestErrorView::Repeated(field)
            } else {
                ManifestErrorView::Mistyped(field)
            } && (*old(slot) is Some || !(value@ is Flag)),
        },
{
    if slot.is_some() {
        return Err(ManifestError::Repeated(field));
    }
    match value {
        Scalar::Flag(flag) => {
            *slot = Some(*flag);
            Ok(())
        },
        _ => Err(ManifestError::Mistyped(field)),
    }
}

impl Manifest {
    /// Takes the manifest out of a document.
    pub fn from_document(document: &Document) -> (made: Result<Manifest, ManifestError>)
        ensures
            result_view(made) == manifest_of(document@),
            made is Ok <==> (document@ matches DocumentView::Mapping(pairs) && complete(pairs)),
            made matches Ok(manifest) ==> (document@ matches DocumentView::Mapping(pairs)
                && forall|i: int|
                0 <= i < pairs.len() ==> value_in(
                    manifest@,
                    (#[trigger] field_of(pairs[i].key))->Some_0,
                ) == pairs[i].value),
    {
        proof {
            if document@ is Mapping {
                lemma_manifest_of_mapping(document@->Mapping_0);
            }
        }
        let pairs = match document {
            Document::Mapping(pairs) => pairs,
            Document::Other => {
                return Err(ManifestError::NotAMapping);
            },
        };
        let ghost entries = Seq::new(pairs@.len(), |i: int| pairs@[i]@);
        assert(document@ == DocumentView::Mapping(entries)) by {
            assert(document@->Mapping_0 =~= entries);
        }
        let mut title: Option<String> = None;
        let mut index_title: Option<String> = None;
        let mut description: Option<String> = None;
        let mut maintained_by: Option<String> = None;
        let mut requires_team: Option<bool> = None;
        let mut i: usize = 0;
        while i < pairs.len()
            invariant
                i <= pairs.len(),
                document@ == DocumentView::Mapping(entries),
                entries == Seq::new(pairs@.len(), |i: int| pairs@[i]@),
                forall|j: int| 0 <= j < i ==> (#[trigger] fault_at(entries, j)) is None,
                text_slot(title) == held(entries, i as int, Field::Title),
                text_slot(index_title) == held(entries, i as int, Field::IndexTitle),
                text_slot(description) == held(entries, i as int, Field::Description),
                text_slot(maintained_by) == held(entries, i as int, Field::MaintainedBy),
                flag_slot(requires_team) == held(entries, i as int, Field::RequiresTeam),
            decreases pairs.len() - i,
        {
            let pair = &pairs[i];
            assert(entries[i as int] == pair@);
            let field = match &pair.key {
                Scalar::Text(name) => Field::of_name(name.as_str()),
                _ => None,
            };
            let put = match field {
                None => Err(ManifestError::UnknownKey(pair.key.duplicate())),
                Some(Field::Title) => put_text(&mut title, Field::Title, &pair.value),
                Some(Field::IndexTitle) => put_text(
                    &mut index_title,
                    Field::IndexTitle,
                    &pair.value,
                ),
                Some(Field::Description) => put_text(
                    &mut description,
                    Field::Description,
                    &pair.value,
                ),
                Some(Field::MaintainedBy) => put_text(
                    &mut maintained_by,
                    Field::MaintainedBy,
                    &pair.value,
                ),
                Some(Field::RequiresTeam) => put_flag(
                    &mut requires_team,
                    Field::RequiresTeam,
                    &pair.value,
                ),
            };
            match put {
                Err(error) => {
                    proof {
                        assert(error@ == fault_at(entries, i as int)->Some_0);
                        assert(is_first_fault(entries, i as int));
                        let k: int = choose|k: int| is_first_fault(entries, k);
                        assert(k == i);
                    }
                    return Err(error);
                },
                Ok(_) => {
                    proof {
                        assert(fault_at(entries, i as int) is None);
                        lemma_held_next(entries, i as int, Field::Title);
                        lemma_held_next(entries, i as int, Field::IndexTitle);
                        lemma_held_next(entries, i as int, Field::Description);
                        lemma_held_next(entries, i as int, Field::MaintainedBy);
                        lemma_held_next(entries, i as int, Field::RequiresTeam);
                    }
                },
            }
            i += 1;
        }
        assert(!exists|k: int| is_first_fault(entries, k));
        match (title, index_title, description, maintained_by, requires_team) {
            (None, _, _, _, _) => Err(ManifestError::Absent(Field::Title)),
            (_, None, _, _, _) => Err(ManifestError::Absent(Field::IndexTitle)),
            (_, _, None, _, _) => Err(ManifestError::Absent(Field::Description)),
            (_, _, _, None, _) => Err(ManifestError::Absent(Field::MaintainedBy)),
            (_, _, _, _, None) => Err(ManifestError::Absent(Field::RequiresTeam)),
            (
                Some(title),
                Some(index_title),
                Some(description),
                Some(maintained_by),
                Some(requires_team),
            ) => Ok(Manifest { title, index_title, description, maintained_by, requires_team }),
        }
    }

    /// Reads a manifest from the text of a manifest file.
    pub fn parse(text: &str) -> (made: Result<Manifest, ManifestError>)
        ensures
            result_view(made) == manifest_in(text@),
    {
        match read_document(text) {
            Ok(document) => Manifest::from_document(&document),
            Err(message) => Err(ManifestError::Syntax(message)),
        }
    }
}

} // verus!
