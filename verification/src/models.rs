//! The attribution model: data points attributed to sources, taxonomic
//! entries whose fields are lists of attributed data points, and the
//! sources themselves.

use vstd::prelude::*;

verus! {

/// A single claim about one field of an entry, attributed to exactly one
/// source.
pub struct DataPoint {
    /// The attribute value (for example "lobed" or "green").
    pub value: String,
    /// Identifier of the source asserting this value.
    pub source_id: String,
    /// Optional page number or location within the source.
    pub page_number: Option<String>,
}

/// Abstract value of a [`DataPoint`]: every text field is a sequence of
/// characters.
#[verifier::ext_equal]
pub struct DataPointV {
    pub value: Seq<char>,
    pub source_id: Seq<char>,
    pub page_number: Option<Seq<char>>,
}

impl View for DataPoint {
    type V = DataPointV;

    open spec fn view(&self) -> DataPointV {
        DataPointV {
            value: self.value@,
            source_id: self.source_id@,
            page_number: match self.page_number {
                Some(p) => Some(p@),
                None => None,
            },
        }
    }
}

impl Clone for DataPoint {
    fn clone(&self) -> (r: Self)
        ensures
            r == *self,
    {
        let page_number = match &self.page_number {
            Some(p) => Some(p.clone()),
            None => None,
        };
        let r = DataPoint { value: self.value.clone(), source_id: self.source_id.clone(), page_number };
        proof {
            assert(r.page_number == self.page_number);
        }
        r
    }
}

/// The fixed set of multi-valued attribute fields of an entry, in the
/// order in which conflict detection and validation walk them.
#[derive(Clone, Copy, PartialEq, Eq, Structural, Debug)]
pub enum FieldName {
    CommonNames,
    LeafColor,
    BudShape,
    LeafShape,
    BarkTexture,
    Habitat,
    NativeRange,
    Height,
}

/// Number of attribute fields of an entry.
pub const FIELD_COUNT: usize = 8;

/// The fixed iteration order of the attribute fields.
pub open spec fn field_order() -> Seq<FieldName> {
    seq![
        FieldName::CommonNames,
        FieldName::LeafColor,
        FieldName::BudShape,
        FieldName::LeafShape,
        FieldName::BarkTexture,
        FieldName::Habitat,
        FieldName::NativeRange,
        FieldName::Height,
    ]
}

/// The attribute fields as an executable list, in the fixed order.
pub fn all_fields() -> (r: Vec<FieldName>)
    ensures
        r@ == field_order(),
{
    let r = vec![
        FieldName::CommonNames,
        FieldName::LeafColor,
        FieldName::BudShape,
        FieldName::LeafShape,
        FieldName::BarkTexture,
        FieldName::Habitat,
        FieldName::NativeRange,
        FieldName::Height,
    ];
    proof {
        assert(r@ =~= field_order());
    }
    r
}

/// A taxonomic record: a primary key, one list of attributed data points
/// per field, and a list of synonyms.
pub struct OakEntry {
    /// Primary key: the scientific name.
    pub scientific_name: String,
    /// Common names.
    pub common_names: Vec<DataPoint>,
    /// Leaf color.
    pub leaf_color: Vec<DataPoint>,
    /// Bud shape.
    pub bud_shape: Vec<DataPoint>,
    /// Leaf shape.
    pub leaf_shape: Vec<DataPoint>,
    /// Bark texture.
    pub bark_texture: Vec<DataPoint>,
    /// Habitat.
    pub habitat: Vec<DataPoint>,
    /// Native range.
    pub native_range: Vec<DataPoint>,
    /// Height range, treated as an opaque string.
    pub height: Vec<DataPoint>,
    /// Synonyms of the scientific name.
    pub synonyms: Vec<String>,
}

/// Abstract value of an [`OakEntry`].
#[verifier::ext_equal]
pub struct OakEntryV {
    pub scientific_name: Seq<char>,
    pub common_names: Seq<DataPointV>,
    pub leaf_color: Seq<DataPointV>,
    pub bud_shape: Seq<DataPointV>,
    pub leaf_shape: Seq<DataPointV>,
    pub bark_texture: Seq<DataPointV>,
    pub habitat: Seq<DataPointV>,
    pub native_range: Seq<DataPointV>,
    pub height: Seq<DataPointV>,
    pub synonyms: Seq<Seq<char>>,
}

/// Abstract value of a list of data points.
pub open spec fn pts_view(pts: Seq<DataPoint>) -> Seq<DataPointV> {
    pts.map_values(|dp: DataPoint| dp@)
}

/// Abstract value of a list of strings.
pub open spec fn strs_view(ss: Seq<String>) -> Seq<Seq<char>> {
    ss.map_values(|s: String| s@)
}

impl View for OakEntry {
    type V = OakEntryV;

    open spec fn view(&self) -> OakEntryV {
        OakEntryV {
            scientific_name: self.scientific_name@,
            common_names: pts_view(self.common_names@),
            leaf_color: pts_view(self.leaf_color@),
            bud_shape: pts_view(self.bud_shape@),
            leaf_shape: pts_view(self.leaf_shape@),
            bark_texture: pts_view(self.bark_texture@),
            habitat: pts_view(self.habitat@),
            native_range: pts_view(self.native_range@),
            height: pts_view(self.height@),
            synonyms: strs_view(self.synonyms@),
        }
    }
}

impl OakEntryV {
    /// The list of data points of one field.
    pub open spec fn field(self, f: FieldName) -> Seq<DataPointV> {
        match f {
            FieldName::CommonNames => self.common_names,
            FieldName::LeafColor => self.leaf_color,
            FieldName::BudShape => self.bud_shape,
            FieldName::LeafShape => self.leaf_shape,
            FieldName::BarkTexture => self.bark_texture,
            FieldName::Habitat => self.habitat,
            FieldName::NativeRange => self.native_range,
            FieldName::Height => self.height,
        }
    }

    /// The entry with the list of one field replaced.
    pub open spec fn with_field(self, f: FieldName, pts: Seq<DataPointV>) -> OakEntryV {
        match f {
            FieldName::CommonNames => OakEntryV { common_names: pts, ..self },
            FieldName::LeafColor => OakEntryV { leaf_color: pts, ..self },
            FieldName::BudShape => OakEntryV { bud_shape: pts, ..self },
            FieldName::LeafShape => OakEntryV { leaf_shape: pts, ..self },
            FieldName::BarkTexture => OakEntryV { bark_texture: pts, ..self },
            FieldName::Habitat => OakEntryV { habitat: pts, ..self },
            FieldName::NativeRange => OakEntryV { native_range: pts, ..self },
            FieldName::Height => OakEntryV { height: pts, ..self },
        }
    }
}

impl OakEntry {
    /// Creates a new empty entry with the given scientific name.
    pub fn new(scientific_name: String) -> (r: Self)
        ensures
            r@.scientific_name == scientific_name@,
            forall|f: FieldName| #[trigger] r@.field(f) == Seq::<DataPointV>::empty(),
            r@.synonyms == Seq::<Seq<char>>::empty(),
    {
        let r = OakEntry {
            scientific_name,
            common_names: Vec::new(),
            leaf_color: Vec::new(),
            bud_shape: Vec::new(),
            leaf_shape: Vec::new(),
            bark_texture: Vec::new(),
            habitat: Vec::new(),
            native_range: Vec::new(),
            height: Vec::new(),
            synonyms: Vec::new(),
        };
        proof {
            assert forall|f: FieldName| #[trigger] r@.field(f) == Seq::<DataPointV>::empty() by {
                assert(r@.field(f) =~= Seq::<DataPointV>::empty());
            }
            assert(r@.synonyms =~= Seq::<Seq<char>>::empty());
        }
        r
    }

    /// The list of data points of one field.
    pub fn field(&self, f: FieldName) -> (r: &Vec<DataPoint>)
        ensures
            pts_view(r@) == self@.field(f),
    {
        match f {
            FieldName::CommonNames => &self.common_names,
            FieldName::LeafColor => &self.leaf_color,
            FieldName::BudShape => &self.bud_shape,
            FieldName::LeafShape => &self.leaf_shape,
            FieldName::BarkTexture => &self.bark_texture,
            FieldName::Habitat => &self.habitat,
            FieldName::NativeRange => &self.native_range,
            FieldName::Height => &self.height,
        }
    }
}

/// Cloning every data point of a list preserves its abstract value.
pub proof fn lemma_points_clone_view(a: Seq<DataPoint>, b: Seq<DataPoint>)
    requires
        a.len() == b.len(),
        forall|i: int| 0 <= i < a.len() ==> vstd::pervasive::cloned::<DataPoint>(a[i], b[i]),
    ensures
        pts_view(a) == pts_view(b),
{
    assert forall|i: int| 0 <= i < a.len() implies #[trigger] pts_view(b)[i] == pts_view(a)[i] by {
        assert(vstd::pervasive::cloned::<DataPoint>(a[i], b[i]));
        assert(b[i] == a[i]);
    }
    assert(pts_view(a) =~= pts_view(b));
}

/// Cloning every string of a list preserves its abstract value.
pub proof fn lemma_strings_clone_view(a: Seq<String>, b: Seq<String>)
    requires
        a.len() == b.len(),
        forall|i: int| 0 <= i < a.len() ==> vstd::pervasive::cloned::<String>(a[i], b[i]),
    ensures
        strs_view(a) == strs_view(b),
{
    assert forall|i: int| 0 <= i < a.len() implies #[trigger] strs_view(b)[i] == strs_view(a)[i] by {
        assert(vstd::pervasive::cloned::<String>(a[i], b[i]));
        assert(b[i] == a[i]);
    }
    assert(strs_view(a) =~= strs_view(b));
}

impl Clone for OakEntry {
    fn clone(&self) -> (r: Self)
        ensures
            r@ == self@,
    {
        let r = OakEntry {
            scientific_name: self.scientific_name.clone(),
            common_names: self.common_names.clone(),
            leaf_color: self.leaf_color.clone(),
            bud_shape: self.bud_shape.clone(),
            leaf_shape: self.leaf_shape.clone(),
            bark_texture: self.bark_texture.clone(),
            habitat: self.habitat.clone(),
            native_range: self.native_range.clone(),
            height: self.height.clone(),
            synonyms: self.synonyms.clone(),
        };
        proof {
            lemma_points_clone_view(self.common_names@, r.common_names@);
            lemma_points_clone_view(self.leaf_color@, r.leaf_color@);
            lemma_points_clone_view(self.bud_shape@, r.bud_shape@);
            lemma_points_clone_view(self.leaf_shape@, r.leaf_shape@);
            lemma_points_clone_view(self.bark_texture@, r.bark_texture@);
            lemma_points_clone_view(self.habitat@, r.habitat@);
            lemma_points_clone_view(self.native_range@, r.native_range@);
            lemma_points_clone_view(self.height@, r.height@);
            lemma_strings_clone_view(self.synonyms@, r.synonyms@);
            assert(r@ =~= self@);
        }
        r
    }
}

/// A bibliographic or observational source to which data points are
/// attributed.
pub struct Source {
    /// Unique source identifier; immutable once created.
    pub source_id: String,
    /// Source type (book, paper, website, observation, and so on).
    pub source_type: String,
    /// Full name or title of the source.
    pub name: String,
    /// Author or authors.
    pub author: Option<String>,
    /// Publication year.
    pub year: Option<i32>,
    /// URL for web sources.
    pub url: Option<String>,
    /// ISBN for books.
    pub isbn: Option<String>,
    /// DOI for papers.
    pub doi: Option<String>,
    /// Additional notes.
    pub notes: Option<String>,
}

/// Abstract value of a [`Source`].
#[verifier::ext_equal]
pub struct SourceV {
    pub source_id: Seq<char>,
    pub source_type: Seq<char>,
    pub name: Seq<char>,
    pub author: Option<Seq<char>>,
    pub year: Option<i32>,
    pub url: Option<Seq<char>>,
    pub isbn: Option<Seq<char>>,
    pub doi: Option<Seq<char>>,
    pub notes: Option<Seq<char>>,
}

/// Abstract value of an optional string.
pub open spec fn opt_str_view(o: Option<String>) -> Option<Seq<char>> {
    match o {
        Some(s) => Some(s@),
        None => None,
    }
}

impl View for Source {
    type V = SourceV;

    open spec fn view(&self) -> SourceV {
        SourceV {
            source_id: self.source_id@,
            source_type: self.source_type@,
            name: self.name@,
            author: opt_str_view(self.author),
            year: self.year,
            url: opt_str_view(self.url),
            isbn: opt_str_view(self.isbn),
            doi: opt_str_view(self.doi),
            notes: opt_str_view(self.notes),
        }
    }
}

impl Source {
    /// Creates a new source with the given identifier, type and name;
    /// every optional field starts out absent.
    pub fn new(source_id: String, source_type: String, name: String) -> (r: Self)
        ensures
            r@.source_id == source_id@,
            r@.source_type == source_type@,
            r@.name == name@,
            r@.author is None,
            r@.year is None,
            r@.url is None,
            r@.isbn is None,
            r@.doi is None,
            r@.notes is None,
    {
        Source {
            source_id,
            source_type,
            name,
            author: None,
            year: None,
            url: None,
            isbn: None,
            doi: None,
            notes: None,
        }
    }
}

/// Clones an optional string, preserving its abstract value.
fn clone_opt_str(o: &Option<String>) -> (r: Option<String>)
    ensures
        opt_str_view(r) == opt_str_view(*o),
{
    match o {
        Some(s) => Some(s.clone()),
        None => None,
    }
}

impl Clone for Source {
    fn clone(&self) -> (r: Self)
        ensures
            r@ == self@,
    {
        Source {
            source_id: self.source_id.clone(),
            source_type: self.source_type.clone(),
            name: self.name.clone(),
            author: clone_opt_str(&self.author),
            year: self.year,
            url: clone_opt_str(&self.url),
            isbn: clone_opt_str(&self.isbn),
            doi: clone_opt_str(&self.doi),
            notes: clone_opt_str(&self.notes),
        }
    }
}

} // verus!
