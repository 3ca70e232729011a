//! Crate lists, downloaded crates, build settings, and the record of
//! which per-unit stores have been merged into the corpus.
use vstd::prelude::*;
use vstd::std_specs::iter::IteratorSpec;
use vstd::string::StringExecFns;

verus! {

broadcast use vstd::string::axiom_spec_iter, vstd::string::next_postcondition;

/// A span of time, or a point in time as the span since the Unix epoch.
#[derive(Clone, Copy, Debug, PartialEq, Eq, Structural)]
pub struct TimeSpan {
    pub secs: u64,
    pub nanos: u32,
}

/// A crate on crates.io.
#[derive(Clone, Debug)]
pub struct Package {
    pub name: String,
    pub version: String,
}

impl Package {
    /// A copy with the same name and version.
    pub fn duplicate(&self) -> (r: Package)
        ensures
            r.name@ == self.name@,
            r.version@ == self.version@,
    {
        Package { name: self.name.clone(), version: self.version.clone() }
    }
}

/// A crate source.
#[derive(Clone, Debug)]
pub enum Crate {
    Package(Package),
}

/// Relies on `ToString` for `char`: the string holds that one character.
#[verifier::external_body]
fn char_string(c: char) -> (r: String)
    ensures
        r@ == seq![c],
{
    c.to_string()
}

/// The first three characters of a crate name, padded with `_`.
pub open spec fn name_prefix(name: Seq<char>) -> Seq<char> {
    (name + seq!['_', '_', '_']).take(3)
}

impl Crate {
    pub open spec fn spec_name(&self) -> Seq<char> {
        match self {
            Crate::Package(p) => p.name@,
        }
    }

    pub open spec fn spec_version(&self) -> Seq<char> {
        match self {
            Crate::Package(p) => p.version@,
        }
    }

    /// The crate's name.
    pub fn name(&self) -> (r: &str)
        ensures
            r@ == self.spec_name(),
    {
        match self {
            Crate::Package(p) => p.name.as_str(),
        }
    }

    /// The crate's version.
    pub fn version(&self) -> (r: &str)
        ensures
            r@ == self.spec_version(),
    {
        match self {
            Crate::Package(p) => p.version.as_str(),
        }
    }

    /// The components of a path under `root` that identifies this crate:
    /// `root`, each of the first three characters of the name (padded with
    /// `_`), the name, and the version.
    pub fn work_path(&self, root: &str) -> (r: Vec<String>)
        ensures
            r@.len() == 6,
            r@[0]@ == root@,
            r@[1]@ == seq![name_prefix(self.spec_name())[0]],
            r@[2]@ == seq![name_prefix(self.spec_name())[1]],
            r@[3]@ == seq![name_prefix(self.spec_name())[2]],
            r@[4]@ == self.spec_name(),
            r@[5]@ == self.spec_version(),
    {
        let name = self.name();
        let ghost padded = name_prefix(name@);
        let mut prefix: Vec<char> = Vec::new();
        let mut chars = name.chars();
        let mut i: usize = 0;
        while i < 3
            invariant
                i <= 3,
                prefix@.len() == i,
                padded == name_prefix(name@),
                forall|j: int| 0 <= j < i ==> prefix@[j] == padded[j],
                i <= name@.len() ==> chars.remaining() == name@.skip(i as int),
                i > name@.len() ==> chars.remaining().len() == 0,
                chars.obeys_prophetic_iter_laws(),
            decreases 3 - i,
        {
            let ghost before = chars.remaining();
            match chars.next() {
                Some(c) => {
                    proof {
                        assert(before.len() > 0);
                        assert(i < name@.len());
                        assert(c == name@[i as int]);
                        assert(name@.skip(i as int).drop_first() =~= name@.skip(i + 1));
                    }
                    prefix.push(c);
                },
                None => {
                    prefix.push('_');
                },
            }
            i = i + 1;
        }
        let mut r: Vec<String> = Vec::new();
        r.push(String::from_str(root));
        r.push(char_string(prefix[0]));
        r.push(char_string(prefix[1]));
        r.push(char_string(prefix[2]));
        r.push(String::from_str(name));
        r.push(String::from_str(self.version()));
        r
    }

    /// A copy with the same name and version.
    pub fn duplicate(&self) -> (r: Crate)
        ensures
            r.spec_name() == self.spec_name(),
            r.spec_version() == self.spec_version(),
    {
        match self {
            Crate::Package(p) => Crate::Package(p.duplicate()),
        }
    }
}

/// A list of crates to download and build, with the time it was made.
#[derive(Clone, Debug)]
pub struct CratesList {
    pub creation_date: TimeSpan,
    pub crates: Vec<Crate>,
}

impl CratesList {
    /// The packages of the list, in order.
    pub fn iter_packages(&self) -> (r: Vec<Package>)
        ensures
            r@.len() == self.crates@.len(),
            forall|i: int|
                0 <= i < r@.len() ==> (#[trigger] r@[i]).name@ == self.crates@[i].spec_name()
                    && r@[i].version@ == self.crates@[i].spec_version(),
    {
        let mut r: Vec<Package> = Vec::new();
        let mut i: usize = 0;
        while i < self.crates.len()
            invariant
                i <= self.crates@.len(),
                r@.len() == i,
                forall|j: int|
                    0 <= j < i ==> (#[trigger] r@[j]).name@ == self.crates@[j].spec_name()
                        && r@[j].version@ == self.crates@[j].spec_version(),
            decreases self.crates@.len() - i,
        {
            match &self.crates[i] {
                Crate::Package(p) => r.push(p.duplicate()),
            }
            i = i + 1;
        }
        r
    }
}

/// A crate whose sources are on disk.
#[derive(Clone, Debug)]
pub struct DownloadedCrate {
    pub krate: Crate,
    pub local_path: String,
}

/// The local copies of the crates of a list.
#[derive(Clone, Debug)]
pub struct LocalArchive {
    pub downloaded_crates: Vec<DownloadedCrate>,
}

impl LocalArchive {
    /// Each downloaded crate with the directory that holds it, in order.
    pub fn iter(&self) -> (r: Vec<(&Crate, &str)>)
        ensures
            r@.len() == self.downloaded_crates@.len(),
            forall|i: int|
                0 <= i < r@.len() ==> *(#[trigger] r@[i]).0 == self.downloaded_crates@[i].krate
                    && r@[i].1@ == self.downloaded_crates@[i].local_path@,
    {
        let mut r: Vec<(&Crate, &str)> = Vec::new();
        let mut i: usize = 0;
        while i < self.downloaded_crates.len()
            invariant
                i <= self.downloaded_crates@.len(),
                r@.len() == i,
                forall|j: int|
                    0 <= j < i ==> *(#[trigger] r@[j]).0 == self.downloaded_crates@[j].krate
                        && r@[j].1@ == self.downloaded_crates@[j].local_path@,
            decreases self.downloaded_crates@.len() - i,
        {
            let d = &self.downloaded_crates[i];
            r.push((&d.krate, d.local_path.as_str()));
            i = i + 1;
        }
        r
    }
}

/// Settings for building the crates of a list.
pub struct CompileManager {
    /// The crates to build.
    pub crates_list: CratesList,
    /// The absolute path of the build workspace.
    pub workspace: String,
    /// The toolchain to build with.
    pub toolchain: String,
    /// Largest size of a build log before it is truncated.
    pub max_log_size: usize,
    /// Memory limit of one build.
    pub memory_limit: Option<usize>,
    /// Time limit of one build.
    pub timeout: Option<TimeSpan>,
    /// Whether a build may use the network.
    pub enable_networking: bool,
    /// Whether the run stops at the first crate that fails to build.
    pub stop_on_error: bool,
    /// Whether the extractor also writes the textual encoding.
    pub output_json: bool,
}

impl CompileManager {
    /// Settings from their parts; `workspace` is an absolute path.
    pub fn new(
        crates_list: CratesList,
        workspace: &str,
        toolchain: String,
        max_log_size: usize,
        memory_limit: Option<usize>,
        timeout: Option<TimeSpan>,
        enable_networking: bool,
        stop_on_error: bool,
        output_json: bool,
    ) -> (r: CompileManager)
        ensures
            r.crates_list == crates_list,
            r.workspace@ == workspace@,
            r.toolchain == toolchain,
            r.max_log_size == max_log_size,
            r.memory_limit == memory_limit,
            r.timeout == timeout,
            r.enable_networking == enable_networking,
            r.stop_on_error == stop_on_error,
            r.output_json == output_json,
    {
        CompileManager {
            crates_list,
            workspace: String::from_str(workspace),
            toolchain,
            max_log_size,
            memory_limit,
            timeout,
            enable_networking,
            stop_on_error,
            output_json,
        }
    }
}

/// The models of a sequence of strings.
pub open spec fn strings_model(v: Seq<String>) -> Seq<Seq<char>> {
    Seq::new(v.len(), |i: int| v[i]@)
}

/// The units of `found` that `merged` does not list, in order.
pub open spec fn unmerged(found: Seq<Seq<char>>, merged: Seq<Seq<char>>) -> Seq<Seq<char>>
    decreases found.len(),
{
    if found.len() == 0 {
        Seq::empty()
    } else {
        let rest = unmerged(found.drop_last(), merged);
        if merged.contains(found.last()) {
            rest
        } else {
            rest.push(found.last())
        }
    }
}

/// The units whose stores have been merged into the corpus, each once.
#[derive(Clone, Debug)]
pub struct MergedUnits {
    units: Vec<String>,
}

impl View for MergedUnits {
    type V = Seq<Seq<char>>;

    closed spec fn view(&self) -> Seq<Seq<char>> {
        strings_model(self.units@)
    }
}

impl MergedUnits {
    /// No unit merged yet.
    pub fn new() -> (r: MergedUnits)
        ensures
            r@ == Seq::<Seq<char>>::empty(),
            r@.no_duplicates(),
    {
        let r = MergedUnits { units: Vec::new() };
        assert(r@ =~= Seq::<Seq<char>>::empty());
        r
    }

    /// Whether `unit` has been merged.
    pub fn contains(&self, unit: &String) -> (r: bool)
        ensures
            r == self@.contains(unit@),
    {
        let mut i: usize = 0;
        while i < self.units.len()
            invariant
                i <= self.units@.len(),
                forall|j: int| 0 <= j < i ==> self@[j] != unit@,
            decreases self.units@.len() - i,
        {
            if self.units[i] == *unit {
                assert(self@[i as int] == unit@);
                return true;
            }
            i = i + 1;
        }
        false
    }

    /// Records that `unit` has been merged.
    pub fn insert(&mut self, unit: String)
        requires
            old(self)@.no_duplicates(),
        ensures
            final(self)@.no_duplicates(),
            final(self)@ == if old(self)@.contains(unit@) {
                old(self)@
            } else {
                old(self)@.push(unit@)
            },
    {
        if !self.contains(&unit) {
            let ghost before = self@;
            self.units.push(unit);
            proof {
                assert(self@ =~= before.push(unit@));
                assert forall|i: int, j: int|
                    0 <= i < self@.len() && 0 <= j < self@.len() && i != j implies self@[i]
                    != self@[j] by {
                    if i < before.len() && j < before.len() {
                    } else if i < before.len() {
                        assert(before.contains(before[i]));
                    } else {
                        assert(before.contains(before[j]));
                    }
                }
            }
        }
    }

    /// The units of `found` that have not been merged yet, in order.
    pub fn pending(&self, found: &Vec<String>) -> (r: Vec<String>)
        ensures
            strings_model(r@) == unmerged(strings_model(found@), self@),
    {
        let ghost f = strings_model(found@);
        let mut r: Vec<String> = Vec::new();
        let mut i: usize = 0;
        while i < found.len()
            invariant
                i <= found@.len(),
                f == strings_model(found@),
                strings_model(r@) == unmerged(f.take(i as int), self@),
            decreases found@.len() - i,
        {
            proof {
                assert(f.take(i + 1).drop_last() =~= f.take(i as int));
                assert(f.take(i + 1).last() == found@[i as int]@);
            }
            if !self.contains(&found[i]) {
                let ghost before = r@;
                r.push(found[i].clone());
                assert(strings_model(r@) =~= strings_model(before).push(found@[i as int]@));
            }
            i = i + 1;
        }
        assert(f.take(found@.len() as int) =~= f);
        r
    }

    /// The merged units, in the order in which they were recorded.
    pub fn units(&self) -> (r: &Vec<String>)
        ensures
            strings_model(r@) == self@,
    {
        &self.units
    }
}

} // verus!
