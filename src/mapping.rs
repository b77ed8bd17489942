//! Path mappings: the new name and category of every manifest resource, with
//! names kept unique within each category.
use vstd::prelude::*;
use vstd::relations::injective_on;
use vstd::set_lib::{lemma_int_range, lemma_len_subset, lemma_map_size, set_int_range};
use crate::decrypt::{build_decrypted_filename, decrypted_filename, dot_extension, get_ext};
use crate::encrypt::{
    build_encrypted_filename, category_of, chars_before_last, classify_item, encrypted_filename,
    FileCategory,
};
use crate::parser::{item_models, ItemModel, Manifest};
use crate::text::{before_last, chars_of, decimal, decimal_chars, lemma_decimal_injective, push_all, string_of};

verus! {

/// The map built by inserting the pairs of `s` in order: a later pair for the
/// same key wins.
pub open spec fn map_of<K, V>(s: Seq<(K, V)>) -> Map<K, V>
    decreases s.len(),
{
    if s.len() == 0 {
        Map::empty()
    } else {
        map_of(s.drop_last()).insert(s.last().0, s.last().1)
    }
}

proof fn lemma_map_of_last<K, V>(s: Seq<(K, V)>, i: int)
    requires
        0 <= i < s.len(),
        forall|j: int| i < j < s.len() ==> s[j].0 != s[i].0,
    ensures
        map_of(s).contains_key(s[i].0),
        map_of(s)[s[i].0] == s[i].1,
    decreases s.len(),
{
    if i < s.len() - 1 {
        lemma_map_of_last(s.drop_last(), i);
    }
}

proof fn lemma_map_of_absent<K, V>(s: Seq<(K, V)>, k: K)
    requires
        forall|j: int| 0 <= j < s.len() ==> s[j].0 != k,
    ensures
        !map_of(s).contains_key(k),
    decreases s.len(),
{
    if s.len() > 0 {
        lemma_map_of_absent(s.drop_last(), k);
    }
}

proof fn lemma_map_of_source<K, V>(s: Seq<(K, V)>, k: K) -> (j: int)
    requires
        map_of(s).contains_key(k),
    ensures
        0 <= j < s.len(),
        s[j].0 == k,
        map_of(s)[k] == s[j].1,
    decreases s.len(),
{
    if s.last().0 == k {
        s.len() - 1
    } else {
        lemma_map_of_source(s.drop_last(), k)
    }
}

/// Archive path → (new file name, category).
#[derive(Debug, Clone)]
pub struct PathMap {
    entries: Vec<(String, (String, FileCategory))>,
}

impl PathMap {
    /// The inserted pairs, in order.
    pub closed spec fn pairs(&self) -> Seq<(Seq<char>, (Seq<char>, FileCategory))> {
        self.entries@.map_values(
            |e: (String, (String, FileCategory))| (e.0@, (e.1.0@, e.1.1)),
        )
    }
}

impl View for PathMap {
    type V = Map<Seq<char>, (Seq<char>, FileCategory)>;

    closed spec fn view(&self) -> Map<Seq<char>, (Seq<char>, FileCategory)> {
        map_of(self.pairs())
    }
}

impl PathMap {
    /// An empty mapping.
    pub fn new() -> (r: PathMap)
        ensures
            r@ == Map::<Seq<char>, (Seq<char>, FileCategory)>::empty(),
            r.pairs() == Seq::<(Seq<char>, (Seq<char>, FileCategory))>::empty(),
    {
        let r = PathMap { entries: Vec::new() };
        assert(r.pairs() =~= Seq::empty());
        r
    }

    /// Maps `path` to `value`, replacing what it mapped to.
    pub fn insert(&mut self, path: String, value: (String, FileCategory))
        ensures
            final(self)@ == old(self)@.insert(path@, (value.0@, value.1)),
            final(self).pairs() == old(self).pairs().push((path@, (value.0@, value.1))),
    {
        let ghost before = self.pairs();
        self.entries.push((path, value));
        assert(self.pairs().drop_last() =~= before);
        assert(self.pairs() =~= before.push((path@, (value.0@, value.1))));
    }

    /// What `path` maps to.
    pub fn get(&self, path: &String) -> (r: Option<&(String, FileCategory)>)
        ensures
            match r {
                Some(v) => self@.contains_key(path@) && self@[path@] == (v.0@, v.1),
                None => !self@.contains_key(path@),
            },
    {
        let ghost s = self.pairs();
        let mut i = self.entries.len();
        while i > 0
            invariant
                i <= s.len(),
                s == self.pairs(),
                forall|j: int| i <= j < s.len() ==> s[j].0 != path@,
            decreases i,
        {
            if self.entries[i - 1].0 == *path {
                proof {
                    lemma_map_of_last(s, i - 1);
                }
                return Some(&self.entries[i - 1].1);
            }
            i -= 1;
        }
        proof {
            lemma_map_of_absent(s, path@);
        }
        None
    }
}

/// A map between paths or names: manifest href → new file name in a
/// mapping, or old archive path → new archive path in a run's outcome.
#[derive(Debug, Clone)]
pub struct HrefMap {
    entries: Vec<(String, String)>,
}

impl HrefMap {
    /// The inserted pairs, in order.
    pub closed spec fn pairs(&self) -> Seq<(Seq<char>, Seq<char>)> {
        self.entries@.map_values(|e: (String, String)| (e.0@, e.1@))
    }
}

impl View for HrefMap {
    type V = Map<Seq<char>, Seq<char>>;

    closed spec fn view(&self) -> Map<Seq<char>, Seq<char>> {
        map_of(self.pairs())
    }
}

impl HrefMap {
    /// An empty mapping.
    pub fn new() -> (r: HrefMap)
        ensures
            r@ == Map::<Seq<char>, Seq<char>>::empty(),
            r.pairs() == Seq::<(Seq<char>, Seq<char>)>::empty(),
    {
        let r = HrefMap { entries: Vec::new() };
        assert(r.pairs() =~= Seq::empty());
        r
    }

    /// Maps `href` to `name`, replacing what it mapped to.
    pub fn insert(&mut self, href: String, name: String)
        ensures
            final(self)@ == old(self)@.insert(href@, name@),
            final(self).pairs() == old(self).pairs().push((href@, name@)),
    {
        let ghost before = self.pairs();
        self.entries.push((href, name));
        assert(self.pairs().drop_last() =~= before);
        assert(self.pairs() =~= before.push((href@, name@)));
    }

    /// What `href` maps to.
    pub fn get(&self, href: &String) -> (r: Option<&String>)
        ensures
            match r {
                Some(v) => self@.contains_key(href@) && self@[href@] == v@,
                None => !self@.contains_key(href@),
            },
    {
        let ghost s = self.pairs();
        let mut i = self.entries.len();
        while i > 0
            invariant
                i <= s.len(),
                s == self.pairs(),
                forall|j: int| i <= j < s.len() ==> s[j].0 != href@,
            decreases i,
        {
            if self.entries[i - 1].0 == *href {
                proof {
                    lemma_map_of_last(s, i - 1);
                }
                return Some(&self.entries[i - 1].1);
            }
            i -= 1;
        }
        proof {
            lemma_map_of_absent(s, href@);
        }
        None
    }
}


/// Outcome of an obfuscation run.
#[derive(Debug, Clone)]
pub struct EncryptResult {
    pub success: bool,
    pub files_encrypted: usize,
    /// Old archive path → new archive path.
    pub mapping: HrefMap,
}

/// Outcome of a reveal run.
#[derive(Debug, Clone)]
pub struct DecryptResult {
    pub success: bool,
    pub files_decrypted: usize,
    /// Old archive path → new archive path.
    pub mapping: HrefMap,
}

/// The new name given to one manifest resource.
pub struct Assignment {
    pub book_path: Seq<char>,
    pub href: Seq<char>,
    pub name: Seq<char>,
    pub category: FileCategory,
}

/// The archive path of a resource: its href under the package directory.
pub open spec fn book_path_of(opf_dir: Seq<char>, href: Seq<char>) -> Seq<char> {
    if opf_dir.len() == 0 {
        href
    } else {
        opf_dir + seq!['/'] + href
    }
}

/// Whether `item` is the navigation item, which keeps its name.
pub open spec fn is_toc(item: ItemModel, toc_id: Seq<char>) -> bool {
    toc_id.len() > 0 && item.id == toc_id
}

/// The name computed for `item` before collisions are resolved.
pub open spec fn candidate_name(item: ItemModel, reveal: bool) -> Seq<char> {
    if reveal {
        decrypted_filename(item.id, item.href)
    } else {
        encrypted_filename(item.id, item.href)
    }
}

/// The names already taken in category `cat` by the pairs of `used`.
pub open spec fn taken_set(used: Seq<(FileCategory, Seq<char>)>, cat: FileCategory) -> Set<
    Seq<char>,
> {
    Set::new(|n: Seq<char>| exists|j: int| 0 <= j < used.len() && used[j] == (cat, n))
}

/// `name` with `_k` put before its extension.
pub open spec fn suffixed(name: Seq<char>, k: nat) -> Seq<char> {
    before_last(name, '.') + seq!['_'] + decimal(k) + dot_extension(name)
}

/// `k` is the least counter from 1 whose suffixed name is free.
pub open spec fn first_free(name: Seq<char>, used: Set<Seq<char>>, k: nat) -> bool {
    &&& k >= 1
    &&& !used.contains(suffixed(name, k))
    &&& forall|j: nat| 1 <= j < k ==> used.contains(#[trigger] suffixed(name, j))
}

/// `name` where it is free; else `name` with the least free counter suffix.
pub open spec fn unique_name(name: Seq<char>, used: Set<Seq<char>>) -> Seq<char> {
    if !used.contains(name) {
        name
    } else {
        suffixed(name, choose|k: nat| first_free(name, used, k))
    }
}

/// The (category, name) pairs of a list of assignments.
pub open spec fn used_pairs(plan: Seq<Assignment>) -> Seq<(FileCategory, Seq<char>)> {
    plan.map_values(|a: Assignment| (a.category, a.name))
}

/// The names given to the items of `items`, in order, skipping the navigation
/// item.
pub open spec fn assignments(
    items: Seq<ItemModel>,
    toc_id: Seq<char>,
    opf_dir: Seq<char>,
    reveal: bool,
) -> Seq<Assignment>
    decreases items.len(),
{
    if items.len() == 0 {
        Seq::empty()
    } else {
        let prev = assignments(items.drop_last(), toc_id, opf_dir, reveal);
        let it = items.last();
        if is_toc(it, toc_id) {
            prev
        } else {
            let cat = category_of(it.media_type, it.href);
            prev.push(
                Assignment {
                    book_path: book_path_of(opf_dir, it.href),
                    href: it.href,
                    name: unique_name(candidate_name(it, reveal), taken_set(used_pairs(prev), cat)),
                    category: cat,
                },
            )
        }
    }
}

/// The archive path of the navigation item, if the manifest holds it.
pub open spec fn toc_path(items: Seq<ItemModel>, toc_id: Seq<char>, opf_dir: Seq<char>) -> Option<
    Seq<char>,
>
    decreases items.len(),
{
    if items.len() == 0 {
        None
    } else if is_toc(items.last(), toc_id) {
        Some(book_path_of(opf_dir, items.last().href))
    } else {
        toc_path(items.drop_last(), toc_id, opf_dir)
    }
}

/// The path map of a list of assignments.
pub open spec fn path_map_of(plan: Seq<Assignment>) -> Map<Seq<char>, (Seq<char>, FileCategory)> {
    map_of(plan.map_values(|a: Assignment| (a.book_path, (a.name, a.category))))
}

/// The href map of a list of assignments.
pub open spec fn href_map_of(plan: Seq<Assignment>) -> Map<Seq<char>, Seq<char>> {
    map_of(plan.map_values(|a: Assignment| (a.href, a.name)))
}

/// Different paths of one category have different names.
pub open spec fn names_distinct_per_category(m: Map<Seq<char>, (Seq<char>, FileCategory)>) -> bool {
    forall|p1: Seq<char>, p2: Seq<char>|
        m.contains_key(p1) && m.contains_key(p2) && p1 != p2 && m[p1].1 == m[p2].1 ==> m[p1].0
            != m[p2].0
}

proof fn lemma_suffixed_injective(name: Seq<char>, a: nat, b: nat)
    requires
        suffixed(name, a) == suffixed(name, b),
    ensures
        a == b,
{
    let pre = before_last(name, '.') + seq!['_'];
    let e = dot_extension(name);
    let sa = suffixed(name, a);
    let sb = suffixed(name, b);
    assert(sa =~= pre + decimal(a) + e);
    assert(sb =~= pre + decimal(b) + e);
    assert(decimal(a).len() == decimal(b).len());
    assert(sa.subrange(pre.len() as int, (pre.len() + decimal(a).len()) as int) =~= decimal(a));
    assert(sb.subrange(pre.len() as int, (pre.len() + decimal(b).len()) as int) =~= decimal(b));
    lemma_decimal_injective(a, b);
}

/// At most `used.len()` suffixed names can all be taken.
proof fn lemma_counters_bounded(
    name: Seq<char>,
    used: Seq<(FileCategory, Seq<char>)>,
    cat: FileCategory,
    k: nat,
)
    requires
        forall|j: nat| 1 <= j <= k ==> taken_set(used, cat).contains(#[trigger] suffixed(name, j)),
    ensures
        k <= used.len(),
{
    let names = used.map_values(|e: (FileCategory, Seq<char>)| e.1);
    let f = |j: int| suffixed(name, j as nat);
    let dom = set_int_range(1, (k + 1) as int);
    lemma_int_range(1, (k + 1) as int);
    assert(injective_on(f, dom)) by {
        assert forall|x: int, y: int| dom.contains(x) && dom.contains(y) && #[trigger] f(x) == #[trigger] f(y) implies x == y by {
            lemma_suffixed_injective(name, x as nat, y as nat);
        }
    }
    lemma_map_size(dom, dom.map(f), f);
    assert(dom.map(f).subset_of(names.to_set())) by {
        assert forall|n: Seq<char>| dom.map(f).contains(n) implies names.to_set().contains(n) by {
            let x = choose|x: int| dom.contains(x) && f(x) == n;
            assert(taken_set(used, cat).contains(suffixed(name, x as nat)));
            let j = choose|j: int| 0 <= j < used.len() && used[j] == (cat, n);
            assert(names[j] == n);
        }
    }
    vstd::seq_lib::seq_to_set_is_finite(names);
    lemma_len_subset(dom.map(f), names.to_set());
    names.lemma_cardinality_of_set();
}

/// Whether `name` is taken in category `cat`.
fn name_taken(used: &Vec<(FileCategory, String)>, cat: FileCategory, name: &String) -> (r: bool)
    ensures
        r == taken_set(used_view(used@), cat).contains(name@),
{
    let mut i: usize = 0;
    while i < used.len()
        invariant
            i <= used@.len(),
            forall|j: int| 0 <= j < i ==> used_view(used@)[j] != (cat, name@),
        decreases used@.len() - i,
    {
        if used[i].0 == cat && used[i].1 == *name {
            assert(used_view(used@)[i as int] == (cat, name@));
            return true;
        }
        i += 1;
    }
    false
}

/// The view of a list of taken names.
pub open spec fn used_view(u: Seq<(FileCategory, String)>) -> Seq<(FileCategory, Seq<char>)> {
    u.map_values(|e: (FileCategory, String)| (e.0, e.1@))
}

/// `name` where it is free in category `cat`; else `name` with `_1`, `_2`, ...
/// before its extension, the first that is free.
fn unique_in(name: String, cat: FileCategory, used: &Vec<(FileCategory, String)>) -> (r: String)
    requires
        used@.len() < usize::MAX,
    ensures
        r@ == unique_name(name@, taken_set(used_view(used@), cat)),
        !taken_set(used_view(used@), cat).contains(r@),
{
    let ghost set = taken_set(used_view(used@), cat);
    if !name_taken(used, cat, &name) {
        return name;
    }
    let nc = chars_of(name.as_str());
    let base = chars_before_last(nc.as_slice(), '.');
    let ext = get_ext(nc.as_slice());
    let mut counter: usize = 1;
    loop
        invariant
            1 <= counter <= used@.len() + 1,
            used@.len() < usize::MAX,
            set == taken_set(used_view(used@), cat),
            set.contains(name@),
            base@ == before_last(name@, '.'),
            ext@ == dot_extension(name@),
            forall|j: nat| 1 <= j < counter ==> set.contains(#[trigger] suffixed(name@, j)),
        decreases used@.len() + 1 - counter,
    {
        let mut cand: Vec<char> = Vec::new();
        push_all(&mut cand, base.as_slice());
        cand.push('_');
        push_all(&mut cand, decimal_chars(counter).as_slice());
        push_all(&mut cand, ext.as_slice());
        assert(cand@ =~= suffixed(name@, counter as nat));
        let cs = string_of(cand.as_slice());
        if !name_taken(used, cat, &cs) {
            proof {
                assert(first_free(name@, set, counter as nat));
                let k = choose|k: nat| first_free(name@, set, k);
                if k < counter {
                    assert(set.contains(suffixed(name@, k)));
                }
                if k > counter {
                    assert(set.contains(suffixed(name@, counter as nat)));
                }
            }
            return cs;
        }
        proof {
            lemma_counters_bounded(name@, used_view(used@), cat, counter as nat);
        }
        counter += 1;
    }
}

/// The archive path of a resource.
fn join_path(opf_dir: &str, href: &str) -> (r: String)
    ensures
        r@ == book_path_of(opf_dir@, href@),
{
    if opf_dir.is_empty() {
        return href.to_owned();
    }
    let mut out = chars_of(opf_dir);
    out.push('/');
    push_all(&mut out, chars_of(href).as_slice());
    string_of(out.as_slice())
}


/// Names within one category of a list of assignments are pairwise distinct.
pub open spec fn plan_distinct(plan: Seq<Assignment>) -> bool {
    forall|a: int, b: int|
        0 <= a < b < plan.len() && plan[a].category == plan[b].category ==> plan[a].name
            != plan[b].name
}

proof fn lemma_plan_distinct_map(plan: Seq<Assignment>)
    requires
        plan_distinct(plan),
    ensures
        names_distinct_per_category(path_map_of(plan)),
{
    let s = plan.map_values(|a: Assignment| (a.book_path, (a.name, a.category)));
    assert forall|p1: Seq<char>, p2: Seq<char>|
        path_map_of(plan).contains_key(p1) && path_map_of(plan).contains_key(p2) && p1 != p2
            && path_map_of(plan)[p1].1 == path_map_of(plan)[p2].1 implies path_map_of(plan)[p1].0
        != path_map_of(plan)[p2].0 by {
        let j1 = lemma_map_of_source(s, p1);
        let j2 = lemma_map_of_source(s, p2);
        assert(j1 != j2);
        if j1 < j2 {
            assert(plan[j1].name != plan[j2].name);
        } else {
            assert(plan[j2].name != plan[j1].name);
        }
    }
}

/// Names every manifest item but the navigation item, in manifest order.
fn assign_names(manifest: &Manifest, toc_id: &str, opf_dir: &str, reveal: bool) -> (r: (
    PathMap,
    HrefMap,
    Option<String>,
))
    requires
        manifest@.len() < usize::MAX,
    ensures
        r.0@ == path_map_of(assignments(manifest@, toc_id@, opf_dir@, reveal)),
        r.1@ == href_map_of(assignments(manifest@, toc_id@, opf_dir@, reveal)),
        crate::parser::opt_view(r.2) == toc_path(manifest@, toc_id@, opf_dir@),
        plan_distinct(assignments(manifest@, toc_id@, opf_dir@, reveal)),
{
    let items = manifest.items();
    let ghost models = manifest@;
    let mut pm = PathMap::new();
    let mut hm = HrefMap::new();
    let mut toc: Option<String> = None;
    let mut used: Vec<(FileCategory, String)> = Vec::new();
    let toc_key = toc_id.to_owned();
    let mut i: usize = 0;
    assert(pm.pairs() =~= assignments(models.subrange(0, 0), toc_id@, opf_dir@, reveal).map_values(
        |a: Assignment| (a.book_path, (a.name, a.category)),
    ));
    assert(hm.pairs() =~= assignments(models.subrange(0, 0), toc_id@, opf_dir@, reveal).map_values(
        |a: Assignment| (a.href, a.name),
    ));
    while i < items.len()
        invariant
            item_models(items@) == models,
            models.len() < usize::MAX,
            i <= models.len(),
            toc_key@ == toc_id@,
            ({
                let plan = assignments(models.subrange(0, i as int), toc_id@, opf_dir@, reveal);
                &&& pm.pairs() == plan.map_values(
                    |a: Assignment| (a.book_path, (a.name, a.category)),
                )
                &&& hm.pairs() == plan.map_values(|a: Assignment| (a.href, a.name))
                &&& used_view(used@) == used_pairs(plan)
                &&& plan.len() <= i
                &&& plan_distinct(plan)
            }),
            crate::parser::opt_view(toc) == toc_path(models.subrange(0, i as int), toc_id@, opf_dir@),
        decreases models.len() - i,
    {
        let item = &items[i];
        let ghost prev = assignments(models.subrange(0, i as int), toc_id@, opf_dir@, reveal);
        assert(models.subrange(0, i + 1).drop_last() =~= models.subrange(0, i as int));
        assert(models.subrange(0, i + 1).last() == item@);
        let bp = join_path(opf_dir, item.href.as_str());
        if !toc_id.is_empty() && item.id == toc_key {
            toc = Some(bp);
        } else {
            let cat = classify_item(item);
            let cand = if reveal {
                build_decrypted_filename(item.id.as_str(), item.href.as_str())
            } else {
                build_encrypted_filename(item.id.as_str(), item.href.as_str())
            };
            assert(used@.len() == used_view(used@).len());
            let name = unique_in(cand, cat, &used);
            let ghost plan = prev.push(
                Assignment { book_path: bp@, href: item.href@, name: name@, category: cat },
            );
            let ghost used_before = used@;
            used.push((cat, name.clone()));
            assert(used@ == used_before.push((cat, name)));
            pm.insert(bp, (name.clone(), cat));
            hm.insert(item.href.clone(), name);
            proof {
                assert(used_view(used@) =~= used_view(used_before).push((cat, name@)));
                assert(used_pairs(plan) =~= used_pairs(prev).push((cat, name@)));
                assert(used_view(used@) =~= used_pairs(plan));
                assert(pm.pairs() =~= plan.map_values(
                    |a: Assignment| (a.book_path, (a.name, a.category)),
                ));
                assert(hm.pairs() =~= plan.map_values(|a: Assignment| (a.href, a.name)));
                assert forall|a: int, b: int|
                    0 <= a < b < plan.len() && plan[a].category == plan[b].category implies plan[a].name
                    != plan[b].name by {
                    if b == plan.len() - 1 {
                        assert(used_pairs(prev)[a] == (cat, plan[a].name));
                        assert(taken_set(used_pairs(prev), cat).contains(plan[a].name));
                    }
                }
            }
        }
        i += 1;
    }
    assert(models.subrange(0, i as int) =~= models);
    proof {
        lemma_plan_distinct_map(assignments(models, toc_id@, opf_dir@, reveal));
    }
    (pm, hm, toc)
}

/// Builds the obfuscation mapping for every manifest item except the
/// navigation item `toc_id`: archive path → (obfuscated name, category), and
/// href → obfuscated name.
pub fn build_path_map(manifest: &Manifest, toc_id: &str, opf_dir: &str) -> (r: (PathMap, HrefMap))
    requires
        manifest@.len() < usize::MAX,
    ensures
        r.0@ == path_map_of(assignments(manifest@, toc_id@, opf_dir@, false)),
        r.1@ == href_map_of(assignments(manifest@, toc_id@, opf_dir@, false)),
        names_distinct_per_category(r.0@),
{
    let (pm, hm, _) = assign_names(manifest, toc_id, opf_dir, false);
    proof {
        lemma_plan_distinct_map(assignments(manifest@, toc_id@, opf_dir@, false));
    }
    (pm, hm)
}

/// Builds the reveal mapping for every manifest item except the navigation
/// item `toc_id`: archive path → (readable name, category), href → readable
/// name, and the archive path of the navigation item.
pub fn build_decrypt_path_map(manifest: &Manifest, toc_id: &str, opf_dir: &str) -> (r: (
    PathMap,
    HrefMap,
    Option<String>,
))
    requires
        manifest@.len() < usize::MAX,
    ensures
        r.0@ == path_map_of(assignments(manifest@, toc_id@, opf_dir@, true)),
        r.1@ == href_map_of(assignments(manifest@, toc_id@, opf_dir@, true)),
        crate::parser::opt_view(r.2) == toc_path(manifest@, toc_id@, opf_dir@),
        names_distinct_per_category(r.0@),
{
    let r = assign_names(manifest, toc_id, opf_dir, true);
    proof {
        lemma_plan_distinct_map(assignments(manifest@, toc_id@, opf_dir@, true));
    }
    r
}


proof fn lemma_find_free(name: Seq<char>, used: Seq<(FileCategory, Seq<char>)>, cat: FileCategory, k: nat)
    requires
        k >= 1,
        forall|j: nat| 1 <= j < k ==> taken_set(used, cat).contains(#[trigger] suffixed(name, j)),
    ensures
        exists|f: nat| first_free(name, taken_set(used, cat), f),
    decreases used.len() + 1 - k,
{
    if !taken_set(used, cat).contains(suffixed(name, k)) {
        assert(first_free(name, taken_set(used, cat), k));
    } else {
        lemma_counters_bounded(name, used, cat, k);
        lemma_find_free(name, used, cat, k + 1);
    }
}

/// The name `unique_name` gives is never already taken.
proof fn lemma_unique_name_free(name: Seq<char>, used: Seq<(FileCategory, Seq<char>)>, cat: FileCategory)
    ensures
        !taken_set(used, cat).contains(unique_name(name, taken_set(used, cat))),
{
    lemma_find_free(name, used, cat, 1);
}

proof fn lemma_assignments_distinct(
    items: Seq<ItemModel>,
    toc_id: Seq<char>,
    opf_dir: Seq<char>,
    reveal: bool,
)
    ensures
        plan_distinct(assignments(items, toc_id, opf_dir, reveal)),
    decreases items.len(),
{
    if items.len() > 0 {
        let prev = assignments(items.drop_last(), toc_id, opf_dir, reveal);
        lemma_assignments_distinct(items.drop_last(), toc_id, opf_dir, reveal);
        let it = items.last();
        if !is_toc(it, toc_id) {
            let cat = category_of(it.media_type, it.href);
            let plan = assignments(items, toc_id, opf_dir, reveal);
            lemma_unique_name_free(candidate_name(it, reveal), used_pairs(prev), cat);
            assert forall|a: int, b: int|
                0 <= a < b < plan.len() && plan[a].category == plan[b].category implies plan[a].name
                != plan[b].name by {
                if b == plan.len() - 1 {
                    assert(used_pairs(prev)[a] == (cat, plan[a].name));
                    assert(taken_set(used_pairs(prev), cat).contains(plan[a].name));
                } else {
                    assert(plan[a] == prev[a] && plan[b] == prev[b]);
                }
            }
        }
    }
}

/// Within one mapping, in either direction, two different archive paths of
/// one category get different new names.
pub proof fn lemma_names_unique_per_category(
    items: Seq<ItemModel>,
    toc_id: Seq<char>,
    opf_dir: Seq<char>,
    reveal: bool,
)
    ensures
        names_distinct_per_category(path_map_of(assignments(items, toc_id, opf_dir, reveal))),
{
    lemma_assignments_distinct(items, toc_id, opf_dir, reveal);
    lemma_plan_distinct_map(assignments(items, toc_id, opf_dir, reveal));
}

proof fn lemma_same_paths(items: Seq<ItemModel>, toc_id: Seq<char>, opf_dir: Seq<char>)
    ensures
        assignments(items, toc_id, opf_dir, true).len() == assignments(items, toc_id, opf_dir, false).len(),
        forall|i: int|
            0 <= i < assignments(items, toc_id, opf_dir, true).len() ==> (#[trigger] assignments(
                items,
                toc_id,
                opf_dir,
                true,
            )[i]).book_path == assignments(items, toc_id, opf_dir, false)[i].book_path
                && assignments(items, toc_id, opf_dir, true)[i].category == assignments(
                items,
                toc_id,
                opf_dir,
                false,
            )[i].category,
    decreases items.len(),
{
    if items.len() > 0 {
        lemma_same_paths(items.drop_last(), toc_id, opf_dir);
    }
}

proof fn lemma_same_keys(
    s1: Seq<(Seq<char>, (Seq<char>, FileCategory))>,
    s2: Seq<(Seq<char>, (Seq<char>, FileCategory))>,
)
    requires
        s1.len() == s2.len(),
        forall|i: int| 0 <= i < s1.len() ==> s1[i].0 == s2[i].0 && s1[i].1.1 == s2[i].1.1,
    ensures
        map_of(s1).dom() == map_of(s2).dom(),
        forall|k: Seq<char>| map_of(s1).contains_key(k) ==> map_of(s1)[k].1 == map_of(s2)[k].1,
    decreases s1.len(),
{
    if s1.len() > 0 {
        lemma_same_keys(s1.drop_last(), s2.drop_last());
        assert(map_of(s1).dom() =~= map_of(s2).dom());
    }
}

/// The reveal mapping of a manifest covers the same archive paths, with the
/// same categories, as its obfuscation mapping; its names come from each
/// item's id and href (`decrypted_filename`), never from obfuscated names.
pub proof fn lemma_reveal_matches_obfuscation(items: Seq<ItemModel>, toc_id: Seq<char>, opf_dir: Seq<char>)
    ensures
        path_map_of(assignments(items, toc_id, opf_dir, true)).dom() == path_map_of(
            assignments(items, toc_id, opf_dir, false),
        ).dom(),
        forall|k: Seq<char>|
            path_map_of(assignments(items, toc_id, opf_dir, true)).contains_key(k) ==> path_map_of(
                assignments(items, toc_id, opf_dir, true),
            )[k].1 == path_map_of(assignments(items, toc_id, opf_dir, false))[k].1,
        forall|it: ItemModel| #[trigger] candidate_name(it, true) == decrypted_filename(it.id, it.href),
{
    let p1 = assignments(items, toc_id, opf_dir, true);
    let p2 = assignments(items, toc_id, opf_dir, false);
    lemma_same_paths(items, toc_id, opf_dir);
    let f = |a: Assignment| (a.book_path, (a.name, a.category));
    assert forall|i: int| 0 <= i < p1.len() implies p1.map_values(f)[i].0 == p2.map_values(f)[i].0
        && p1.map_values(f)[i].1.1 == p2.map_values(f)[i].1.1 by {
        assert(p1[i].book_path == p2[i].book_path);
    }
    lemma_same_keys(p1.map_values(f), p2.map_values(f));
}

} // verus!
