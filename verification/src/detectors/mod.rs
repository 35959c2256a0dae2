//! Directory entries, the things nominated for deletion, and the detectors
//! that recognise a project by its markers and nominate its disposable
//! children.

use vstd::prelude::*;

use crate::size::FileSize;
use crate::text::base_name;
use crate::text::chars_of;
use crate::text::contains;
use crate::text::is_substring;
use crate::text::last_segment;

pub mod javascript;

verus! {

/// What an `Entry` stands for: a path, its last segment, and whether it is a
/// directory.
pub struct EntryView {
    pub path: Seq<char>,
    pub name: Seq<char>,
    pub is_dir: bool,
}

/// One child of a listed directory.
#[derive(Debug)]
pub struct Entry {
    pub path: String,
    pub name: String,
    pub is_dir: bool,
}

impl View for Entry {
    type V = EntryView;

    open spec fn view(&self) -> EntryView {
        EntryView { path: self.path@, name: self.name@, is_dir: self.is_dir }
    }
}

impl DeepView for Entry {
    type V = EntryView;

    open spec fn deep_view(&self) -> EntryView {
        self@
    }
}

impl Clone for Entry {
    fn clone(&self) -> (copy: Entry)
        ensures
            copy@ == self@,
    {
        Entry { path: self.path.clone(), name: self.name.clone(), is_dir: self.is_dir }
    }
}

impl Entry {
    /// Describes the child at `path`, given whether it is a directory. Its
    /// name is the last segment of the path.
    pub fn new(path: String, is_dir: bool) -> (entry: Entry)
        ensures
            entry@ == (EntryView { path: path@, name: base_name(path@), is_dir }),
    {
        let name = last_segment(path.as_str());
        Entry { path, name, is_dir }
    }
}

/// What a `Deletable` stands for: a path, whether it is a directory, and its
/// measured size in bytes.
pub struct DeletableView {
    pub path: Seq<char>,
    pub is_dir: bool,
    pub size: nat,
}

/// An entry selected for removal, with its measured size.
#[derive(Debug)]
pub struct Deletable {
    pub path: String,
    pub is_dir: bool,
    pub size: FileSize,
}

impl View for Deletable {
    type V = DeletableView;

    open spec fn view(&self) -> DeletableView {
        DeletableView { path: self.path@, is_dir: self.is_dir, size: self.size@ }
    }
}

impl DeepView for Deletable {
    type V = DeletableView;

    open spec fn deep_view(&self) -> DeletableView {
        self@
    }
}

impl Deletable {
    /// The deletable at `path`, given whether it is a directory and the size
    /// that was measured for it.
    pub fn new(path: String, is_dir: bool, size: FileSize) -> (deletable: Deletable)
        ensures
            deletable@ == (DeletableView { path: path@, is_dir, size: size@ }),
    {
        Deletable { path, is_dir, size }
    }
}

/// One of `markers` stands in `path` as a substring.
pub open spec fn has_marker(markers: Seq<Seq<char>>, path: Seq<char>) -> bool {
    exists|k: int| 0 <= k < markers.len() && is_substring(#[trigger] markers[k], path)
}

/// A listing is positive for a detector when the path of one of its entries
/// holds one of the detector's markers.
pub open spec fn is_positive(markers: Seq<Seq<char>>, entries: Seq<EntryView>) -> bool {
    exists|i: int| 0 <= i < entries.len() && has_marker(markers, (#[trigger] entries[i]).path)
}

/// The entries whose name is exactly one of `candidates`, in listing order.
pub open spec fn nominated(candidates: Seq<Seq<char>>, entries: Seq<EntryView>) -> Seq<EntryView> {
    entries.filter(|e: EntryView| candidates.contains(e.name))
}

/// What a detector makes of a listing: nothing where the listing is not
/// positive; else the nominated entries, of which there may be none.
pub open spec fn evaluate(
    markers: Seq<Seq<char>>,
    candidates: Seq<Seq<char>>,
    entries: Seq<EntryView>,
) -> Option<Seq<EntryView>> {
    if is_positive(markers, entries) {
        Some(nominated(candidates, entries))
    } else {
        None
    }
}

/// Whether `name` is exactly one of `candidates`.
pub fn is_candidate(candidates: &Vec<String>, name: &String) -> (listed: bool)
    ensures
        listed == candidates.deep_view().contains(name@),
{
    let mut k: usize = 0;
    while k < candidates.len()
        invariant
            k <= candidates.len(),
            forall|j: int| 0 <= j < k ==> candidates.deep_view()[j] != name@,
        decreases candidates.len() - k,
    {
        if candidates[k] == *name {
            assert(candidates.deep_view()[k as int] == name@);
            return true;
        }
        k += 1;
    }
    false
}

/// Whether one of `markers` stands in `path`.
fn path_marked(markers: &Vec<Vec<char>>, path: &Vec<char>) -> (marked: bool)
    ensures
        marked == has_marker(markers@.map_values(|m: Vec<char>| m@), path@),
{
    let ghost texts = markers@.map_values(|m: Vec<char>| m@);
    let mut k: usize = 0;
    while k < markers.len()
        invariant
            k <= markers.len(),
            texts == markers@.map_values(|m: Vec<char>| m@),
            forall|j: int| 0 <= j < k ==> !is_substring(#[trigger] texts[j], path@),
        decreases markers.len() - k,
    {
        if contains(path, &markers[k]) {
            assert(is_substring(texts[k as int], path@));
            return true;
        }
        k += 1;
    }
    false
}

/// The characters of each of `texts`.
fn chars_of_each(texts: &Vec<String>) -> (chars: Vec<Vec<char>>)
    ensures
        chars@.map_values(|m: Vec<char>| m@) == texts.deep_view(),
{
    let mut chars: Vec<Vec<char>> = Vec::new();
    let mut k: usize = 0;
    while k < texts.len()
        invariant
            k <= texts.len(),
            chars.len() == k,
            forall|j: int| 0 <= j < k ==> (#[trigger] chars@[j])@ == texts@[j]@,
        decreases texts.len() - k,
    {
        chars.push(chars_of(texts[k].as_str()));
        k += 1;
    }
    assert(chars@.map_values(|m: Vec<char>| m@) =~= texts.deep_view());
    chars
}

/// Whether `entries` is positive for `markers`.
fn any_marked(markers: &Vec<String>, entries: &Vec<Entry>) -> (positive: bool)
    ensures
        positive == is_positive(markers.deep_view(), entries.deep_view()),
{
    let chars = chars_of_each(markers);
    let mut i: usize = 0;
    while i < entries.len()
        invariant
            i <= entries.len(),
            chars@.map_values(|m: Vec<char>| m@) == markers.deep_view(),
            forall|j: int|
                0 <= j < i ==> !has_marker(
                    markers.deep_view(),
                    (#[trigger] entries.deep_view()[j]).path,
                ),
        decreases entries.len() - i,
    {
        let path = chars_of(entries[i].path.as_str());
        if path_marked(&chars, &path) {
            assert(has_marker(markers.deep_view(), entries.deep_view()[i as int].path));
            return true;
        }
        i += 1;
    }
    false
}

/// The entries of `entries` that `candidates` nominate.
fn select(candidates: &Vec<String>, entries: &Vec<Entry>) -> (found: Vec<Entry>)
    ensures
        found.deep_view() == nominated(candidates.deep_view(), entries.deep_view()),
{
    let ghost views = entries.deep_view();
    let mut found: Vec<Entry> = Vec::new();
    let mut i: usize = 0;
    assert(views.take(0) =~= Seq::<EntryView>::empty());
    assert(found.deep_view() =~= Seq::<EntryView>::empty());
    proof {
        reveal(Seq::filter);
    }
    while i < entries.len()
        invariant
            i <= entries.len(),
            views == entries.deep_view(),
            found.deep_view() == nominated(candidates.deep_view(), views.take(i as int)),
        decreases entries.len() - i,
    {
        let ghost before = found.deep_view();
        proof {
            assert(views.take(i + 1) =~= views.take(i as int).push(views[i as int]));
            views.take(i as int).lemma_filter_push(
                views[i as int],
                |e: EntryView| candidates.deep_view().contains(e.name),
            );
        }
        if is_candidate(candidates, &entries[i].name) {
            found.push(entries[i].clone());
            assert(found.deep_view() =~= before.push(views[i as int]));
        }
        i += 1;
    }
    assert(views.take(entries.len() as int) =~= views);
    found
}

/// A stateless recogniser of one project ecosystem: the markers that give a
/// project away and the names of the children that may be deleted from it.
pub trait Detector: Send + Sync {
    /// The markers, as texts.
    spec fn marker_set(&self) -> Seq<Seq<char>>;

    /// The candidate names, as texts.
    spec fn candidate_set(&self) -> Seq<Seq<char>>;

    /// The markers: a directory is matched when one of them stands in the
    /// path of one of its children.
    fn markers(&self) -> (markers: Vec<String>)
        ensures
            markers.deep_view() == self.marker_set(),
    ;

    /// The candidates: the exact names of children that a matched directory
    /// may lose.
    fn deletables(&self) -> (candidates: Vec<String>)
        ensures
            candidates.deep_view() == self.candidate_set(),
    ;

    /// Evaluates one directory listing: `None` where the listing is not
    /// positive for this detector; else the entries it nominates, in listing
    /// order, possibly none.
    fn find_deletables(&self, entries: &Vec<Entry>) -> (found: Option<Vec<Entry>>)
        ensures
            found.deep_view() == evaluate(
                self.marker_set(),
                self.candidate_set(),
                entries.deep_view(),
            ),
    {
        let markers = self.markers();
        if any_marked(&markers, entries) {
            let candidates = self.deletables();
            Some(select(&candidates, entries))
        } else {
            None
        }
    }
}

/// What a `Rules` stands for: its markers and its candidates, as texts.
pub struct RulesView {
    pub markers: Seq<Seq<char>>,
    pub candidates: Seq<Seq<char>>,
}

/// A detector as plain data: a marker set and a candidate set.
#[derive(Debug)]
pub struct Rules {
    pub markers: Vec<String>,
    pub candidates: Vec<String>,
}

impl View for Rules {
    type V = RulesView;

    open spec fn view(&self) -> RulesView {
        RulesView { markers: self.markers.deep_view(), candidates: self.candidates.deep_view() }
    }
}

impl DeepView for Rules {
    type V = RulesView;

    open spec fn deep_view(&self) -> RulesView {
        self@
    }
}

/// A copy of `texts`.
fn copy_texts(texts: &Vec<String>) -> (copy: Vec<String>)
    ensures
        copy.deep_view() == texts.deep_view(),
{
    let mut copy: Vec<String> = Vec::new();
    let mut k: usize = 0;
    while k < texts.len()
        invariant
            k <= texts.len(),
            copy.len() == k,
            forall|j: int| 0 <= j < k ==> (#[trigger] copy@[j])@ == texts@[j]@,
        decreases texts.len() - k,
    {
        copy.push(texts[k].clone());
        k += 1;
    }
    assert(copy.deep_view() =~= texts.deep_view());
    copy
}

impl Detector for Rules {
    open spec fn marker_set(&self) -> Seq<Seq<char>> {
        self@.markers
    }

    open spec fn candidate_set(&self) -> Seq<Seq<char>> {
        self@.candidates
    }

    fn markers(&self) -> (markers: Vec<String>) {
        copy_texts(&self.markers)
    }

    fn deletables(&self) -> (candidates: Vec<String>) {
        copy_texts(&self.candidates)
    }
}

/// What every detector of `registry` makes of one listing, one after the
/// other in the order of registration: the nominated entries of each detector
/// for which the listing is positive.
pub open spec fn merged(registry: Seq<RulesView>, entries: Seq<EntryView>) -> Seq<EntryView>
    decreases registry.len(),
{
    if registry.len() == 0 {
        Seq::empty()
    } else {
        let last = registry.last();
        merged(registry.drop_last(), entries) + match evaluate(
            last.markers,
            last.candidates,
            entries,
        ) {
            Some(found) => found,
            None => Seq::empty(),
        }
    }
}

/// `name` is a candidate of some detector of `registry`.
pub open spec fn claimed(registry: Seq<RulesView>, name: Seq<char>) -> bool {
    exists|k: int| 0 <= k < registry.len() && (#[trigger] registry[k]).candidates.contains(name)
}

/// The registered detectors, in the order of registration.
pub struct Registry {
    detectors: Vec<Rules>,
}

impl View for Registry {
    type V = Seq<RulesView>;

    closed spec fn view(&self) -> Seq<RulesView> {
        self.detectors.deep_view()
    }
}

impl Registry {
    /// A registry without detectors.
    pub fn new() -> (registry: Registry)
        ensures
            registry@ == Seq::<RulesView>::empty(),
    {
        let registry = Registry { detectors: Vec::new() };
        assert(registry@ =~= Seq::<RulesView>::empty());
        registry
    }

    /// Registers `detector` behind those registered before.
    pub fn register<D: Detector>(&mut self, detector: &D)
        ensures
            final(self)@ == old(self)@.push(
                RulesView {
                    markers: detector.marker_set(),
                    candidates: detector.candidate_set(),
                },
            ),
    {
        let rules = Rules { markers: detector.markers(), candidates: detector.deletables() };
        self.detectors.push(rules);
        assert(self@ =~= old(self)@.push(
            RulesView { markers: detector.marker_set(), candidates: detector.candidate_set() },
        ));
    }

    /// How many detectors are registered.
    pub fn len(&self) -> (len: usize)
        ensures
            len == self@.len(),
    {
        self.detectors.len()
    }

    /// Runs every registered detector over one listing and merges what they
    /// nominate.
    pub fn evaluate(&self, entries: &Vec<Entry>) -> (found: Vec<Entry>)
        ensures
            found.deep_view() == merged(self@, entries.deep_view()),
    {
        let mut found: Vec<Entry> = Vec::new();
        let mut k: usize = 0;
        assert(self@.take(0) =~= Seq::<RulesView>::empty());
        assert(found.deep_view() =~= Seq::<EntryView>::empty());
        while k < self.detectors.len()
            invariant
                k <= self.detectors.len(),
                found.deep_view() == merged(self@.take(k as int), entries.deep_view()),
            decreases self.detectors.len() - k,
        {
            let ghost before = found.deep_view();
            assert(self@.take(k + 1).drop_last() =~= self@.take(k as int));
            assert(self@.take(k + 1).last() == self.detectors[k as int]@);
            match self.detectors[k].find_deletables(entries) {
                Some(mut more) => {
                    let ghost added = more.deep_view();
                    found.append(&mut more);
                    assert(found.deep_view() =~= before + added);
                },
                None => {},
            }
            k += 1;
        }
        assert(self@.take(self.detectors.len() as int) =~= self@);
        found
    }

    /// Whether `name` is a candidate of some registered detector.
    pub fn claims(&self, name: &String) -> (claimed: bool)
        ensures
            claimed == self::claimed(self@, name@),
    {
        let mut k: usize = 0;
        while k < self.detectors.len()
            invariant
                k <= self.detectors.len(),
                forall|j: int| 0 <= j < k ==> !(#[trigger] self@[j]).candidates.contains(name@),
            decreases self.detectors.len() - k,
        {
            if is_candidate(&self.detectors[k].candidates, name) {
                assert(self@[k as int].candidates.contains(name@));
                return true;
            }
            k += 1;
        }
        false
    }
}

/// What was found at a path whose size is being measured.
pub enum Probe {
    /// A file of this many bytes.
    File(u64),
    /// A directory with these children.
    Directory(Vec<String>),
    /// Nothing that could be read: it counts as nothing.
    Unreadable,
}

/// What a `SizeMeasurer` stands for: the paths that wait to be probed, the
/// one to be probed next last, and the bytes summed so far.
pub struct MeasurerView {
    pub pending: Seq<Seq<char>>,
    pub total: nat,
}

impl MeasurerView {
    /// The measurement after the next path was handed out to be probed.
    pub open spec fn next(self) -> MeasurerView {
        if self.pending.len() > 0 {
            MeasurerView { pending: self.pending.drop_last(), ..self }
        } else {
            self
        }
    }

    /// The measurement after a file of `bytes` bytes was probed.
    pub open spec fn add_file(self, bytes: nat) -> MeasurerView {
        MeasurerView { total: self.total + bytes, ..self }
    }

    /// The sum has room for what `probe` found.
    pub open spec fn fits(self, probe: Probe) -> bool {
        match probe {
            Probe::File(bytes) => self.total + bytes <= u64::MAX,
            _ => true,
        }
    }

    /// The measurement after a directory with `children` was probed.
    pub open spec fn add_directory(self, children: Seq<Seq<char>>) -> MeasurerView {
        MeasurerView { pending: self.pending + children, ..self }
    }
}

/// The recursive size of what stands at a path: the sum of the sizes of the
/// files below it, what cannot be read counting as nothing.
pub struct SizeMeasurer {
    pending: Vec<String>,
    total: u64,
}

impl View for SizeMeasurer {
    type V = MeasurerView;

    closed spec fn view(&self) -> MeasurerView {
        MeasurerView { pending: self.pending.deep_view(), total: self.total as nat }
    }
}

impl SizeMeasurer {
    /// A measurement of what stands at `path`.
    pub fn new(path: String) -> (measurer: SizeMeasurer)
        ensures
            measurer@ == (MeasurerView { pending: seq![path@], total: 0 }),
    {
        let mut pending: Vec<String> = Vec::new();
        pending.push(path);
        let measurer = SizeMeasurer { pending, total: 0 };
        assert(measurer@.pending =~= seq![path@]);
        measurer
    }

    /// Hands out the next path to probe; `None` when the measurement is
    /// complete.
    pub fn next(&mut self) -> (path: Option<String>)
        ensures
            final(self)@ == old(self)@.next(),
            match path {
                Some(path) => old(self)@.pending.len() > 0 && path@ == old(self)@.pending.last(),
                None => old(self)@.pending.len() == 0,
            },
    {
        let path = self.pending.pop();
        assert(path is Some ==> self@.pending =~= old(self)@.pending.drop_last());
        path
    }

    /// Whether the sum has room for what `probe` found.
    pub fn fits(&self, probe: &Probe) -> (fits: bool)
        ensures
            fits == self@.fits(*probe),
    {
        match probe {
            Probe::File(bytes) => *bytes <= u64::MAX - self.total,
            _ => true,
        }
    }

    /// Takes what was found at the path that `next` handed out last: a file
    /// adds its size, a directory adds its children to the paths to probe,
    /// and what could not be read adds nothing.
    pub fn record(&mut self, probe: Probe)
        requires
            old(self)@.fits(probe),
        ensures
            final(self)@ == (match probe {
                Probe::File(bytes) => old(self)@.add_file(bytes as nat),
                Probe::Directory(children) => old(self)@.add_directory(children.deep_view()),
                Probe::Unreadable => old(self)@,
            }),
    {
        match probe {
            Probe::File(bytes) => {
                self.total = self.total + bytes;
            },
            Probe::Directory(mut children) => {
                let ghost added = children.deep_view();
                self.pending.append(&mut children);
                assert(self@.pending =~= old(self)@.pending + added);
            },
            Probe::Unreadable => {},
        }
    }
}

/// The measured size, once every path has been probed; `None` while paths
/// wait to be probed.
pub fn get_size(measurer: &SizeMeasurer) -> (size: Option<FileSize>)
    ensures
        match size {
            Some(size) => measurer@.pending.len() == 0 && size@ == measurer@.total,
            None => measurer@.pending.len() > 0,
        },
{
    if measurer.pending.len() == 0 {
        Some(FileSize::new(measurer.total))
    } else {
        None
    }
}

} // verus!
