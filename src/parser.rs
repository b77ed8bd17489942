//! The package document: its data model and its parsers.
use vstd::prelude::*;
use vstd::utf8::encode_utf8;
use crate::error::EpubError;
use crate::rewrite::trimmed;
use crate::text::{chars_of, string_of};
use crate::xml_utils::copy_bytes;
use crate::xml::{read_events, xml_events, XmlAttr, XmlEvent, XmlTag};

verus! {

/// Bibliographic metadata of a publication.
#[derive(Debug, Clone)]
pub struct EpubMetadata {
    pub title: Option<String>,
    pub creator: Option<String>,
    pub language: Option<String>,
    pub identifier: Option<String>,
    pub publisher: Option<String>,
    pub date: Option<String>,
    pub version: String,
}

/// One resource declared in the manifest.
#[derive(Debug, Clone)]
pub struct ManifestItem {
    pub id: String,
    pub href: String,
    pub media_type: String,
    pub properties: Option<String>,
}

/// A manifest item as plain character sequences.
pub struct ItemModel {
    pub id: Seq<char>,
    pub href: Seq<char>,
    pub media_type: Seq<char>,
    pub properties: Option<Seq<char>>,
}

/// The view of an optional string.
pub open spec fn opt_view(o: Option<String>) -> Option<Seq<char>> {
    match o {
        Some(s) => Some(s@),
        None => None,
    }
}

impl View for ManifestItem {
    type V = ItemModel;

    open spec fn view(&self) -> ItemModel {
        ItemModel {
            id: self.id@,
            href: self.href@,
            media_type: self.media_type@,
            properties: opt_view(self.properties),
        }
    }
}

/// The manifest: resources keyed by a unique id, in document order.
#[derive(Debug, Clone)]
pub struct Manifest {
    items: Vec<ManifestItem>,
}

/// The models of a list of manifest items.
pub open spec fn item_models(v: Seq<ManifestItem>) -> Seq<ItemModel> {
    v.map_values(|m: ManifestItem| m@)
}

/// No two items of `s` share an id.
pub open spec fn ids_unique(s: Seq<ItemModel>) -> bool {
    forall|i: int, j: int| 0 <= i < j < s.len() ==> s[i].id != s[j].id
}

impl View for Manifest {
    type V = Seq<ItemModel>;

    closed spec fn view(&self) -> Seq<ItemModel> {
        item_models(self.items@)
    }
}

impl Manifest {
    /// Every id occurs once.
    pub open spec fn wf(&self) -> bool {
        ids_unique(self@)
    }

    /// An empty manifest.
    pub fn new() -> (r: Manifest)
        ensures
            r@ == Seq::<ItemModel>::empty(),
            r.wf(),
    {
        let r = Manifest { items: Vec::new() };
        assert(r@ =~= Seq::<ItemModel>::empty());
        r
    }

    /// The number of items.
    pub fn len(&self) -> (r: usize)
        ensures
            r == self@.len(),
    {
        self.items.len()
    }

    /// The items, in document order.
    pub fn items(&self) -> (r: &Vec<ManifestItem>)
        ensures
            item_models(r@) == self@,
    {
        &self.items
    }

    /// Position of the item with the given id.
    fn position(&self, id: &String) -> (r: Option<usize>)
        ensures
            match r {
                Some(i) => i == id_position(self@, id@),
                None => id_position(self@, id@) < 0,
            },
    {
        let ghost s = self@;
        let mut i = self.items.len();
        assert(s.subrange(0, i as int) =~= s);
        while i > 0
            invariant
                i <= s.len(),
                s == self@,
                id_position(s, id@) == id_position(s.subrange(0, i as int), id@),
            decreases i,
        {
            assert(s.subrange(0, i as int).drop_last() =~= s.subrange(0, i - 1));
            if self.items[i - 1].id == *id {
                return Some(i - 1);
            }
            i -= 1;
        }
        None
    }

    /// The item with the given id.
    pub fn get(&self, id: &str) -> (r: Option<&ManifestItem>)
        ensures
            match r {
                Some(m) => id_position(self@, id@) >= 0 && m@ == self@[id_position(self@, id@)],
                None => id_position(self@, id@) < 0,
            },
    {
        let key = id.to_owned();
        proof {
            lemma_id_position(self@, id@);
        }
        match self.position(&key) {
            Some(i) => Some(&self.items[i]),
            None => None,
        }
    }

    /// Whether an item has the given id.
    pub fn contains_key(&self, id: &str) -> (r: bool)
        ensures
            r == (id_position(self@, id@) >= 0),
    {
        let key = id.to_owned();
        self.position(&key).is_some()
    }

    /// Adds an item; an item with the same id is replaced in place.
    pub fn insert(&mut self, item: ManifestItem)
        requires
            old(self).wf(),
        ensures
            final(self).wf(),
            id_position(old(self)@, item@.id) >= 0 ==> final(self)@ == old(self)@.update(
                id_position(old(self)@, item@.id),
                item@,
            ),
            id_position(old(self)@, item@.id) < 0 ==> final(self)@ == old(self)@.push(item@),
    {
        proof {
            lemma_id_position(self@, item@.id);
        }
        let ghost before = self.items@;
        match self.position(&item.id) {
            Some(i) => {
                self.items[i] = item;
                assert(item_models(self.items@) =~= item_models(before).update(i as int, item@));
            },
            None => {
                self.items.push(item);
                assert(item_models(self.items@) =~= item_models(before).push(item@));
            },
        }
    }
}

/// Position of the item with id `id` in `s` (the last one), or -1.
pub open spec fn id_position(s: Seq<ItemModel>, id: Seq<char>) -> int
    decreases s.len(),
{
    if s.len() == 0 {
        -1
    } else if s.last().id == id {
        s.len() - 1
    } else {
        id_position(s.drop_last(), id)
    }
}

pub proof fn lemma_id_position(s: Seq<ItemModel>, id: Seq<char>)
    ensures
        -1 <= id_position(s, id) < s.len(),
        id_position(s, id) >= 0 ==> s[id_position(s, id)].id == id,
        forall|j: int| id_position(s, id) < j < s.len() ==> s[j].id != id,
        id_position(s, id) < 0 ==> forall|j: int| 0 <= j < s.len() ==> s[j].id != id,
    decreases s.len(),
{
    if s.len() > 0 && s.last().id != id {
        lemma_id_position(s.drop_last(), id);
        assert(forall|j: int| 0 <= j < s.len() - 1 ==> s.drop_last()[j] == s[j]);
    }
}


/// A reading-order entry.
#[derive(Debug, Clone)]
pub struct SpineItem {
    pub idref: String,
    pub linear: Option<String>,
}

/// The UTF-8 bytes of a name.
pub open spec fn bytes_of(s: Seq<char>) -> Seq<u8> {
    encode_utf8(s)
}

/// Position of the first `:` in a name, or -1.
pub open spec fn colon_pos(name: Seq<u8>) -> int
    decreases name.len(),
{
    if name.len() == 0 {
        -1
    } else if colon_pos(name.drop_last()) >= 0 {
        colon_pos(name.drop_last())
    } else if name.last() == 58u8 {
        name.len() - 1
    } else {
        -1
    }
}

/// A name without its namespace prefix: what follows the first `:`.
pub open spec fn local_of(name: Seq<u8>) -> Seq<u8> {
    if colon_pos(name) < 0 {
        name
    } else {
        name.subrange(colon_pos(name) + 1, name.len() as int)
    }
}

/// Strip namespace prefix: `dc:title` gives `title`, `opf:package` gives `package`.
pub fn local_name(name: &[u8]) -> (r: Vec<u8>)
    ensures
        r@ == local_of(name@),
{
    let mut i: usize = 0;
    while i < name.len()
        invariant
            i <= name@.len(),
            colon_pos(name@.subrange(0, i as int)) < 0,
        decreases name@.len() - i,
    {
        assert(name@.subrange(0, i + 1).drop_last() =~= name@.subrange(0, i as int));
        if name[i] == 58u8 {
            proof {
                lemma_colon_prefix(name@, i + 1);
            }
            return copy_bytes(name, i + 1);
        }
        i += 1;
    }
    assert(name@.subrange(0, i as int) =~= name@);
    copy_bytes(name, 0)
}

proof fn lemma_colon_prefix(s: Seq<u8>, n: int)
    requires
        0 <= n <= s.len(),
        colon_pos(s.subrange(0, n)) >= 0,
    ensures
        colon_pos(s) == colon_pos(s.subrange(0, n)),
    decreases s.len() - n,
{
    if n < s.len() {
        assert(s.subrange(0, n + 1).drop_last() =~= s.subrange(0, n));
        lemma_colon_prefix(s, n + 1);
    } else {
        assert(s.subrange(0, n) =~= s);
    }
}

fn same_bytes(a: &[u8], b: &[u8]) -> (r: bool)
    ensures
        r == (a@ == b@),
{
    if a.len() != b.len() {
        return false;
    }
    let mut i: usize = 0;
    while i < a.len()
        invariant
            a@.len() == b@.len(),
            i <= a@.len(),
            forall|j: int| 0 <= j < i ==> a@[j] == b@[j],
        decreases a@.len() - i,
    {
        if a[i] != b[i] {
            return false;
        }
        i += 1;
    }
    assert(a@ =~= b@);
    true
}

/// An attribute as plain values.
pub open spec fn attr_model(a: XmlAttr) -> (Seq<u8>, Option<Seq<char>>) {
    (a.key@, opt_view(a.value))
}

/// The value of the last attribute named `key`: `None` when there is none,
/// `Some(None)` when its value could not be unescaped.
pub open spec fn last_attr(attrs: Seq<XmlAttr>, key: Seq<u8>) -> Option<Option<Seq<char>>>
    decreases attrs.len(),
{
    if attrs.len() == 0 {
        None
    } else if attrs.last().key@ == key {
        Some(opt_view(attrs.last().value))
    } else {
        last_attr(attrs.drop_last(), key)
    }
}

/// Whether some attribute named `key` has a value that could not be unescaped.
pub open spec fn bad_attr(attrs: Seq<XmlAttr>, key: Seq<u8>) -> bool {
    exists|j: int| 0 <= j < attrs.len() && attrs[j].key@ == key && attrs[j].value is None
}

/// The attribute `key` where it is present and readable.
pub open spec fn attr_text(attrs: Seq<XmlAttr>, key: Seq<u8>) -> Option<Seq<char>> {
    match last_attr(attrs, key) {
        Some(Some(v)) => Some(v),
        _ => None,
    }
}

/// Looks up attribute `key`: whether one had an unreadable value, and the
/// value of the last one.
fn find_attr(attrs: &Vec<XmlAttr>, key: &[u8]) -> (r: (bool, Option<String>))
    ensures
        r.0 == bad_attr(attrs@, key@),
        opt_view(r.1) == attr_text(attrs@, key@),
{
    let mut bad = false;
    let mut found: Option<String> = None;
    let mut i: usize = 0;
    while i < attrs.len()
        invariant
            i <= attrs@.len(),
            bad == bad_attr(attrs@.subrange(0, i as int), key@),
            opt_view(found) == attr_text(attrs@.subrange(0, i as int), key@),
        decreases attrs@.len() - i,
    {
        let ghost pre = attrs@.subrange(0, i as int);
        let ghost next = attrs@.subrange(0, i + 1);
        assert(next.drop_last() =~= pre);
        if same_bytes(attrs[i].key.as_slice(), key) {
            match &attrs[i].value {
                Some(v) => {
                    found = Some(v.clone());
                },
                None => {
                    found = None;
                    bad = true;
                    assert(next[i as int].key@ == key@);
                },
            }
        }
        assert(bad == bad_attr(next, key@)) by {
            if bad_attr(next, key@) && !bad_attr(pre, key@) {
                let j = choose|j: int| 0 <= j < next.len() && next[j].key@ == key@ && next[j].value is None;
                assert(j == i);
            }
            if bad_attr(pre, key@) {
                let j = choose|j: int| 0 <= j < pre.len() && pre[j].key@ == key@ && pre[j].value is None;
                assert(next[j] == pre[j]);
            }
        }
        i += 1;
    }
    assert(attrs@.subrange(0, i as int) =~= attrs@);
    (bad, found)
}

/// The manifest item an `item` tag declares: `id`, `href` and `media-type`
/// are required, `properties` is optional; none of the four may be unreadable.
pub open spec fn item_from_attrs(attrs: Seq<XmlAttr>) -> Option<ItemModel> {
    let keys = seq![bytes_of("id"@), bytes_of("href"@), bytes_of("media-type"@), bytes_of("properties"@)];
    if bad_attr(attrs, keys[0]) || bad_attr(attrs, keys[1]) || bad_attr(attrs, keys[2])
        || bad_attr(attrs, keys[3]) {
        None
    } else {
        match (attr_text(attrs, keys[0]), attr_text(attrs, keys[1]), attr_text(attrs, keys[2])) {
            (Some(id), Some(href), Some(mt)) => Some(
                ItemModel { id, href, media_type: mt, properties: attr_text(attrs, keys[3]) },
            ),
            _ => None,
        }
    }
}

fn parse_manifest_item(tag: &XmlTag) -> (r: Option<ManifestItem>)
    ensures
        match r {
            Some(m) => item_from_attrs(tag.attrs@) == Some(m@),
            None => item_from_attrs(tag.attrs@) is None,
        },
{
    let (b1, id) = find_attr(&tag.attrs, "id".as_bytes());
    let (b2, href) = find_attr(&tag.attrs, "href".as_bytes());
    let (b3, mt) = find_attr(&tag.attrs, "media-type".as_bytes());
    let (b4, props) = find_attr(&tag.attrs, "properties".as_bytes());
    if b1 || b2 || b3 || b4 {
        return None;
    }
    match (id, href, mt) {
        (Some(id), Some(href), Some(media_type)) => Some(
            ManifestItem { id, href, media_type, properties: props },
        ),
        _ => None,
    }
}

/// The spine entry an `itemref` tag declares: `idref` is required, `linear`
/// optional; neither may be unreadable.
pub open spec fn spine_from_attrs(attrs: Seq<XmlAttr>) -> Option<(Seq<char>, Option<Seq<char>>)> {
    if bad_attr(attrs, bytes_of("idref"@)) || bad_attr(attrs, bytes_of("linear"@)) {
        None
    } else {
        match attr_text(attrs, bytes_of("idref"@)) {
            Some(idref) => Some((idref, attr_text(attrs, bytes_of("linear"@)))),
            None => None,
        }
    }
}

/// A spine entry as plain values.
pub open spec fn spine_model(s: SpineItem) -> (Seq<char>, Option<Seq<char>>) {
    (s.idref@, opt_view(s.linear))
}

fn parse_spine_item(tag: &XmlTag) -> (r: Option<SpineItem>)
    ensures
        match r {
            Some(s) => spine_from_attrs(tag.attrs@) == Some(spine_model(s)),
            None => spine_from_attrs(tag.attrs@) is None,
        },
{
    let (b1, idref) = find_attr(&tag.attrs, "idref".as_bytes());
    let (b2, linear) = find_attr(&tag.attrs, "linear".as_bytes());
    if b1 || b2 {
        return None;
    }
    match idref {
        Some(idref) => Some(SpineItem { idref, linear }),
        None => None,
    }
}


/// Metadata as plain values: title, creator, language, identifier,
/// publisher and date, in that order, then the package version.
pub struct MetaModel {
    pub fields: Seq<Option<Seq<char>>>,
    pub version: Seq<char>,
}

impl View for EpubMetadata {
    type V = MetaModel;

    open spec fn view(&self) -> MetaModel {
        MetaModel {
            fields: seq![
                opt_view(self.title),
                opt_view(self.creator),
                opt_view(self.language),
                opt_view(self.identifier),
                opt_view(self.publisher),
                opt_view(self.date),
            ],
            version: self.version@,
        }
    }
}

/// What the package-document scanner has gathered, as plain values.
pub struct ScanModel {
    pub meta: MetaModel,
    pub manifest: Seq<ItemModel>,
    pub spine: Seq<(Seq<char>, Option<Seq<char>>)>,
    pub context: u8,
    pub in_package: bool,
}

/// The metadata element a local name opens: 1 to 6 for title, creator,
/// language, identifier, publisher, date; 0 for any other.
pub open spec fn context_of(local: Seq<u8>) -> u8 {
    if local == bytes_of("title"@) {
        1
    } else if local == bytes_of("creator"@) {
        2
    } else if local == bytes_of("language"@) {
        3
    } else if local == bytes_of("identifier"@) {
        4
    } else if local == bytes_of("publisher"@) {
        5
    } else if local == bytes_of("date"@) {
        6
    } else {
        0
    }
}

/// A manifest after adding `item`: an item of the same id is replaced in place.
pub open spec fn manifest_with(s: Seq<ItemModel>, item: ItemModel) -> Seq<ItemModel> {
    if id_position(s, item.id) >= 0 {
        s.update(id_position(s, item.id), item)
    } else {
        s.push(item)
    }
}

/// Whether a local name is `item` or `itemref`.
pub open spec fn is_entry_name(l: Seq<u8>) -> bool {
    l == bytes_of("item"@) || l == bytes_of("itemref"@)
}

/// The scanner after an `item` or `itemref` tag, written self-closing or as a
/// start tag: the manifest or the spine gains what it declares.
pub open spec fn scan_entry(m: ScanModel, tag: XmlTag) -> ScanModel {
    let l = local_of(tag.name@);
    if l == bytes_of("item"@) {
        match item_from_attrs(tag.attrs@) {
            Some(item) => ScanModel { manifest: manifest_with(m.manifest, item), ..m },
            None => m,
        }
    } else if l == bytes_of("itemref"@) {
        match spine_from_attrs(tag.attrs@) {
            Some(si) => ScanModel { spine: m.spine.push(si), ..m },
            None => m,
        }
    } else {
        m
    }
}

/// The scanner after one event.
pub open spec fn scan_next(m: ScanModel, ev: XmlEvent) -> ScanModel {
    match ev {
        XmlEvent::Start(tag) => {
            let l = local_of(tag.name@);
            if l == bytes_of("package"@) {
                ScanModel {
                    meta: MetaModel {
                        version: match last_attr(tag.attrs@, bytes_of("version"@)) {
                            Some(Some(v)) => v,
                            Some(None) => Seq::empty(),
                            None => m.meta.version,
                        },
                        ..m.meta
                    },
                    in_package: true,
                    ..m
                }
            } else if is_entry_name(l) {
                scan_entry(m, tag)
            } else if m.in_package && context_of(l) != 0 {
                ScanModel { context: context_of(l), ..m }
            } else {
                m
            }
        },
        XmlEvent::Empty(tag) => scan_entry(m, tag),
        XmlEvent::Text(t) => {
            let text = match t {
                Some(x) => trimmed(x@),
                None => Seq::empty(),
            };
            if text.len() > 0 && 1 <= m.context <= 6 && m.meta.fields[m.context - 1] is None {
                ScanModel {
                    meta: MetaModel {
                        fields: m.meta.fields.update(m.context - 1, Some(text)),
                        ..m.meta
                    },
                    ..m
                }
            } else {
                m
            }
        },
        XmlEvent::End(name) => {
            if context_of(local_of(name@)) != 0 {
                ScanModel { context: 0, ..m }
            } else {
                m
            }
        },
        _ => m,
    }
}

/// The scanner after a sequence of events, from the empty state.
pub open spec fn scan_all(evs: Seq<XmlEvent>) -> ScanModel
    decreases evs.len(),
{
    if evs.len() == 0 {
        ScanModel {
            meta: MetaModel { fields: seq![None, None, None, None, None, None], version: Seq::empty() },
            manifest: Seq::empty(),
            spine: Seq::empty(),
            context: 0,
            in_package: false,
        }
    } else {
        scan_next(scan_all(evs.drop_last()), evs.last())
    }
}

/// The spine as plain values.
pub open spec fn spine_models(v: Seq<SpineItem>) -> Seq<(Seq<char>, Option<Seq<char>>)> {
    v.map_values(|s: SpineItem| spine_model(s))
}

/// The package-document scanner: metadata, manifest and spine gathered from
/// the events read so far.
pub struct OpfScan {
    pub metadata: EpubMetadata,
    pub manifest: Manifest,
    pub spine: Vec<SpineItem>,
    pub context: u8,
    pub in_package: bool,
}

impl View for OpfScan {
    type V = ScanModel;

    open spec fn view(&self) -> ScanModel {
        ScanModel {
            meta: self.metadata@,
            manifest: self.manifest@,
            spine: spine_models(self.spine@),
            context: self.context,
            in_package: self.in_package,
        }
    }
}

fn keep_first(field: &mut Option<String>, text: &Vec<char>)
    ensures
        opt_view(*final(field)) == (if *old(field) is None {
            Some(text@)
        } else {
            opt_view(*old(field))
        }),
{
    if field.is_none() {
        *field = Some(string_of(text.as_slice()));
    }
}

impl OpfScan {
    /// The empty scanner.
    pub fn new() -> (r: OpfScan)
        ensures
            r@ == scan_all(Seq::empty()),
            r.manifest.wf(),
    {
        let r = OpfScan {
            metadata: EpubMetadata {
                title: None,
                creator: None,
                language: None,
                identifier: None,
                publisher: None,
                date: None,
                version: String::new(),
            },
            manifest: Manifest::new(),
            spine: Vec::new(),
            context: 0,
            in_package: false,
        };
        assert(spine_models(r.spine@) =~= Seq::empty());
        assert(r@.meta.fields =~= seq![None, None, None, None, None, None]);
        r
    }

    /// Takes an `item` or `itemref` tag into account.
    fn take_entry(&mut self, tag: &XmlTag)
        requires
            old(self).manifest.wf(),
        ensures
            final(self).manifest.wf(),
            final(self)@ == scan_entry(old(self)@, *tag),
    {
        let l = local_name(tag.name.as_slice());
        if same_bytes(l.as_slice(), "item".as_bytes()) {
            if let Some(item) = parse_manifest_item(tag) {
                self.manifest.insert(item);
            }
        } else if same_bytes(l.as_slice(), "itemref".as_bytes()) {
            if let Some(si) = parse_spine_item(tag) {
                let ghost old_spine = self.spine@;
                self.spine.push(si);
                assert(spine_models(self.spine@) =~= spine_models(old_spine).push(spine_model(si)));
            }
        }
    }

    /// Takes one event into account.
    pub fn step(&mut self, ev: &XmlEvent)
        requires
            old(self).manifest.wf(),
        ensures
            final(self).manifest.wf(),
            final(self)@ == scan_next(old(self)@, *ev),
    {
        let ghost before = self@;
        match ev {
            XmlEvent::Start(tag) => {
                let l = local_name(tag.name.as_slice());
                if same_bytes(l.as_slice(), "package".as_bytes()) {
                    self.in_package = true;
                    let (_, v) = find_attr(&tag.attrs, "version".as_bytes());
                    proof {
                        lemma_last_attr(tag.attrs@, bytes_of("version"@));
                    }
                    match v {
                        Some(v) => {
                            self.metadata.version = v;
                        },
                        None => {
                            if has_attr(&tag.attrs, "version".as_bytes()) {
                                self.metadata.version = String::new();
                            }
                        },
                    }
                    assert(self@.meta.fields =~= before.meta.fields);
                } else if same_bytes(l.as_slice(), "item".as_bytes()) || same_bytes(
                    l.as_slice(),
                    "itemref".as_bytes(),
                ) {
                    self.take_entry(tag);
                } else if self.in_package {
                    let k = context_code(l.as_slice());
                    if k != 0 {
                        self.context = k;
                    }
                }
            },
            XmlEvent::Empty(tag) => {
                self.take_entry(tag);
            },
            XmlEvent::Text(t) => {
                let text: Vec<char> = match t {
                    Some(x) => crate::rewrite::trim_chars(chars_of(x.as_str()).as_slice(), false),
                    None => Vec::new(),
                };
                if text.len() > 0 {
                    let c = self.context;
                    if c == 1 {
                        keep_first(&mut self.metadata.title, &text);
                    } else if c == 2 {
                        keep_first(&mut self.metadata.creator, &text);
                    } else if c == 3 {
                        keep_first(&mut self.metadata.language, &text);
                    } else if c == 4 {
                        keep_first(&mut self.metadata.identifier, &text);
                    } else if c == 5 {
                        keep_first(&mut self.metadata.publisher, &text);
                    } else if c == 6 {
                        keep_first(&mut self.metadata.date, &text);
                    }
                    assert(self@.meta.fields =~= (if 1 <= c <= 6 && before.meta.fields[c - 1] is None {
                        before.meta.fields.update(c - 1, Some(text@))
                    } else {
                        before.meta.fields
                    }));
                }
            },
            XmlEvent::End(name) => {
                let l = local_name(name.as_slice());
                if context_code(l.as_slice()) != 0 {
                    self.context = 0;
                }
            },
            _ => {},
        }
    }
}

proof fn lemma_last_attr(attrs: Seq<XmlAttr>, key: Seq<u8>)
    ensures
        last_attr(attrs, key) == Some(None::<Seq<char>>) ==> bad_attr(attrs, key),
    decreases attrs.len(),
{
    if attrs.len() > 0 && attrs.last().key@ != key {
        lemma_last_attr(attrs.drop_last(), key);
        if last_attr(attrs, key) == Some(None::<Seq<char>>) {
            let j = choose|j: int|
                0 <= j < attrs.len() - 1 && attrs.drop_last()[j].key@ == key
                    && attrs.drop_last()[j].value is None;
            assert(attrs[j] == attrs.drop_last()[j]);
        }
    } else if attrs.len() > 0 {
        if last_attr(attrs, key) == Some(None::<Seq<char>>) {
            assert(attrs[attrs.len() - 1].key@ == key);
        }
    }
}

/// Whether some attribute is named `key`.
fn has_attr(attrs: &Vec<XmlAttr>, key: &[u8]) -> (r: bool)
    ensures
        r == (last_attr(attrs@, key@) is Some),
{
    let mut i = attrs.len();
    assert(attrs@.subrange(0, i as int) =~= attrs@);
    while i > 0
        invariant
            i <= attrs@.len(),
            (last_attr(attrs@, key@) is Some) == (last_attr(attrs@.subrange(0, i as int), key@) is Some),
        decreases i,
    {
        assert(attrs@.subrange(0, i as int).drop_last() =~= attrs@.subrange(0, i - 1));
        if same_bytes(attrs[i - 1].key.as_slice(), key) {
            return true;
        }
        i -= 1;
    }
    false
}

/// The metadata element a local name opens, as `context_of` has it.
fn context_code(local: &[u8]) -> (r: u8)
    ensures
        r == context_of(local@),
{
    if same_bytes(local, "title".as_bytes()) {
        1
    } else if same_bytes(local, "creator".as_bytes()) {
        2
    } else if same_bytes(local, "language".as_bytes()) {
        3
    } else if same_bytes(local, "identifier".as_bytes()) {
        4
    } else if same_bytes(local, "publisher".as_bytes()) {
        5
    } else if same_bytes(local, "date".as_bytes()) {
        6
    } else {
        0
    }
}


/// Metadata as the parser hands it out: an empty version becomes `2.0`.
pub open spec fn finished_meta(m: MetaModel) -> MetaModel {
    if m.version.len() == 0 {
        MetaModel { version: "2.0"@, ..m }
    } else {
        m
    }
}

/// The parts of a package document: metadata, manifest and spine.
pub type OpfParts = (EpubMetadata, Manifest, Vec<SpineItem>);

/// Whether `r` is what the scanner makes of the events `evs`.
pub open spec fn parts_from_events(r: OpfParts, evs: Seq<XmlEvent>) -> bool {
    &&& r.0@ == finished_meta(scan_all(evs).meta)
    &&& r.1@ == scan_all(evs).manifest
    &&& spine_models(r.2@) == scan_all(evs).spine
    &&& r.1.wf()
}

/// Parse the package document with the event reader: metadata inside the
/// `package` element, every `item` into the manifest, every `itemref` into
/// the spine. Fails exactly where the reader finds the document malformed.
pub fn parse_opf(opf_xml: &str) -> (r: Result<OpfParts, EpubError>)
    ensures
        r is Ok <==> xml_events(opf_xml@, true).last() is Eof,
        r is Ok ==> parts_from_events(r->Ok_0, xml_events(opf_xml@, true).drop_last()),
        r is Err ==> r->Err_0 is Xml,
{
    let events = read_events(opf_xml, true);
    let n = events.len();
    let ghost evs = events@;
    let mut scan = OpfScan::new();
    let mut i: usize = 0;
    assert(evs.subrange(0, 0) =~= Seq::<XmlEvent>::empty());
    while i < n - 1
        invariant
            n == evs.len(),
            n >= 1,
            evs == events@,
            i <= n - 1,
            scan@ == scan_all(evs.subrange(0, i as int)),
            scan.manifest.wf(),
        decreases n - 1 - i,
    {
        assert(evs.subrange(0, i + 1).drop_last() =~= evs.subrange(0, i as int));
        scan.step(&events[i]);
        i += 1;
    }
    assert(evs.subrange(0, i as int) =~= evs.drop_last());
    match &events[n - 1] {
        XmlEvent::Eof => {},
        _ => {
            return Err(EpubError::Xml("OPF parse error".to_owned()));
        },
    }
    let OpfScan { mut metadata, manifest, spine, .. } = scan;
    if metadata.version.as_str().is_empty() {
        metadata.version = "2.0".to_owned();
    }
    let parts = (metadata, manifest, spine);
    assert(parts_from_events(parts, evs.drop_last()));
    Ok(parts)
}

/// The package path a `rootfile` tag names: its first `full-path` attribute;
/// `None` when it has none, `Some(None)` when that value is unreadable.
pub open spec fn full_path_of(attrs: Seq<XmlAttr>) -> Option<Option<Seq<char>>>
    decreases attrs.len(),
{
    if attrs.len() == 0 {
        None
    } else if full_path_of(attrs.drop_last()) is Some {
        full_path_of(attrs.drop_last())
    } else if attrs.last().key@ == bytes_of("full-path"@) {
        Some(opt_view(attrs.last().value))
    } else {
        None
    }
}

/// The first `full-path` attribute of a tag.
fn first_full_path(attrs: &Vec<XmlAttr>) -> (r: Option<Option<String>>)
    ensures
        match r {
            Some(v) => full_path_of(attrs@) == Some(opt_view(v)),
            None => full_path_of(attrs@) is None,
        },
{
    let mut i: usize = 0;
    while i < attrs.len()
        invariant
            i <= attrs@.len(),
            full_path_of(attrs@.subrange(0, i as int)) is None,
        decreases attrs@.len() - i,
    {
        assert(attrs@.subrange(0, i + 1).drop_last() =~= attrs@.subrange(0, i as int));
        if same_bytes(attrs[i].key.as_slice(), "full-path".as_bytes()) {
            proof {
                lemma_full_path_prefix(attrs@, i + 1);
            }
            return Some(attrs[i].value.clone());
        }
        i += 1;
    }
    assert(attrs@.subrange(0, i as int) =~= attrs@);
    None
}

proof fn lemma_full_path_prefix(s: Seq<XmlAttr>, n: int)
    requires
        0 <= n <= s.len(),
        full_path_of(s.subrange(0, n)) is Some,
    ensures
        full_path_of(s) == full_path_of(s.subrange(0, n)),
    decreases s.len() - n,
{
    if n < s.len() {
        assert(s.subrange(0, n + 1).drop_last() =~= s.subrange(0, n));
        lemma_full_path_prefix(s, n + 1);
    } else {
        assert(s.subrange(0, n) =~= s);
    }
}

/// What one event of `container.xml` says of the package path: `None` when
/// it is not a `rootfile` tag with a `full-path` attribute; else that path,
/// or an XML error where its value could not be unescaped.
pub open spec fn opf_path_of_event(ev: XmlEvent) -> Option<Result<Seq<char>, ()>> {
    match ev {
        XmlEvent::Start(tag) | XmlEvent::Empty(tag) => if tag.name@ == bytes_of("rootfile"@) {
            match full_path_of(tag.attrs@) {
                Some(Some(p)) => Some(Ok(p)),
                Some(None) => Some(Err(())),
                None => None,
            }
        } else {
            None
        },
        _ => None,
    }
}

/// The package path one event of `container.xml` gives, as
/// `opf_path_of_event` has it.
pub fn opf_path_in(ev: &XmlEvent) -> (r: Option<Result<String, EpubError>>)
    ensures
        match r {
            None => opf_path_of_event(*ev) is None,
            Some(Ok(p)) => opf_path_of_event(*ev) == Some(Ok::<Seq<char>, ()>(p@)),
            Some(Err(e)) => opf_path_of_event(*ev) == Some(Err::<Seq<char>, ()>(())) && e is Xml,
        },
{
    match ev {
        XmlEvent::Start(tag) | XmlEvent::Empty(tag) => {
            if !same_bytes(tag.name.as_slice(), "rootfile".as_bytes()) {
                return None;
            }
            match first_full_path(&tag.attrs) {
                Some(Some(p)) => Some(Ok(p)),
                Some(None) => Some(
                    Err(EpubError::Xml("unreadable full-path attribute".to_owned())),
                ),
                None => None,
            }
        },
        _ => None,
    }
}

/// What the events from `i` on say of the package path: the path of the
/// first `rootfile` tag with a `full-path`; `Err(true)` where that value is
/// unreadable or the document is malformed first; `Err(false)` where there
/// is none.
pub open spec fn opf_path_from(evs: Seq<XmlEvent>, i: int) -> Result<Seq<char>, bool>
    decreases evs.len() - i,
{
    if i < 0 || i >= evs.len() {
        Err(false)
    } else if evs[i] is Malformed {
        Err(true)
    } else {
        match opf_path_of_event(evs[i]) {
            Some(Ok(p)) => Ok(p),
            Some(Err(_)) => Err(true),
            None => opf_path_from(evs, i + 1),
        }
    }
}

/// Extract the package document path from `META-INF/container.xml`: the
/// `full-path` of the first `rootfile` element that has one.
pub fn extract_opf_path(container_xml: &str) -> (r: Result<String, EpubError>)
    ensures
        match r {
            Ok(p) => opf_path_from(xml_events(container_xml@, false), 0) == Ok::<Seq<char>, bool>(
                p@,
            ),
            Err(e) => (e is Xml && opf_path_from(xml_events(container_xml@, false), 0) == Err::<
                Seq<char>,
                bool,
            >(true)) || (e is Structure && opf_path_from(xml_events(container_xml@, false), 0)
                == Err::<Seq<char>, bool>(false)),
        },
{
    let events = read_events(container_xml, false);
    let ghost evs = events@;
    let mut i: usize = 0;
    while i < events.len()
        invariant
            evs == events@,
            evs == xml_events(container_xml@, false),
            i <= evs.len(),
            opf_path_from(evs, 0) == opf_path_from(evs, i as int),
        decreases evs.len() - i,
    {
        let ev = &events[i];
        assert(*ev == evs[i as int]);
        if let XmlEvent::Malformed = ev {
            assert(evs[i as int] is Malformed);
            return Err(EpubError::Xml("XML parse error".to_owned()));
        }
        assert(!(evs[i as int] is Malformed));
        match opf_path_in(ev) {
            Some(Ok(p)) => {
                assert(opf_path_from(evs, i as int) == Ok::<Seq<char>, bool>(p@));
                return Ok(p);
            },
            Some(Err(e)) => {
                assert(opf_path_from(evs, i as int) == Err::<Seq<char>, bool>(true));
                return Err(e);
            },
            None => {},
        }
        i += 1;
    }
    Err(
        EpubError::Structure(
            "Invalid EPUB: cannot locate OPF path in container.xml".to_owned(),
        ),
    )
}

} // verus!
