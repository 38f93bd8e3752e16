//! Label normalisation: mapping a raw label name to its canonical form by
//! means of a per-repository table.
use vstd::prelude::*;
use vstd::string::StringExecFns;

verus! {

/// A label table as pairs of (raw spelling, canonical name).
pub type LabelPairs = Seq<(Seq<char>, Seq<char>)>;

/// The canonical name of `raw` under `t`: the canonical side of the first
/// pair whose raw side is `raw`, or `raw` itself where no pair matches.
pub open spec fn canonical(t: LabelPairs, raw: Seq<char>) -> Seq<char>
    decreases t.len(),
{
    if t.len() == 0 {
        raw
    } else if t[0].0 == raw {
        t[0].1
    } else {
        canonical(t.drop_first(), raw)
    }
}

/// A lookup table from raw label spellings to canonical label names.
pub struct LabelTable {
    pub entries: Vec<(String, String)>,
}

impl View for LabelTable {
    type V = LabelPairs;

    open spec fn view(&self) -> LabelPairs {
        self.entries@.map_values(|p: (String, String)| (p.0@, p.1@))
    }
}

impl LabelTable {
    /// The table that maps every label to itself.
    pub fn identity() -> (r: LabelTable)
        ensures
            r@ == Seq::<(Seq<char>, Seq<char>)>::empty(),
    {
        LabelTable { entries: Vec::new() }
    }

    /// Appends the pair (`raw`, `canon`) at the end of the table.
    pub fn add(&mut self, raw: &str, canon: &str)
        ensures
            final(self)@ == old(self)@.push((raw@, canon@)),
    {
        self.entries.push((String::from_str(raw), String::from_str(canon)));
        assert(final(self)@ =~= old(self)@.push((raw@, canon@)));
    }

    /// The canonical name of the label `raw`.
    pub fn normalize(&self, raw: &String) -> (r: String)
        ensures
            r@ == canonical(self@, raw@),
    {
        let n = self.entries.len();
        let mut i: usize = 0;
        assert(self@.subrange(0, n as int) =~= self@);
        while i < n
            invariant
                n == self.entries@.len(),
                i <= n,
                canonical(self@, raw@) == canonical(self@.subrange(i as int, n as int), raw@),
            decreases n - i,
        {
            let ghost rest = self@.subrange(i as int, n as int);
            assert(rest.drop_first() =~= self@.subrange(i + 1, n as int));
            if self.entries[i].0 == *raw {
                return self.entries[i].1.clone();
            }
            i = i + 1;
        }
        raw.clone()
    }

    /// The built-in table of the repository `org/repo`; a repository
    /// without one gets the identity table.
    pub fn for_repo(org: &String, repo: &String) -> (r: LabelTable)
        ensures
            r@ == builtin_pairs(org@, repo@),
    {
        let ootr_org = String::from_str("OoTRandomizer");
        let ootr_repo = String::from_str("OoT-Randomizer");
        let mhmw_org = String::from_str("midoshouse");
        let mhmw_repo = String::from_str("ootr-multiworld");
        if *org == ootr_org && *repo == ootr_repo {
            ootr_table()
        } else if *org == mhmw_org && *repo == mhmw_repo {
            mhmw_table()
        } else {
            LabelTable::identity()
        }
    }
}

/// The built-in table for a repository, as pairs.
pub open spec fn builtin_pairs(org: Seq<char>, repo: Seq<char>) -> LabelPairs {
    if org == "OoTRandomizer"@ && repo == "OoT-Randomizer"@ {
        ootr_pairs()
    } else if org == "midoshouse"@ && repo == "ootr-multiworld"@ {
        mhmw_pairs()
    } else {
        Seq::empty()
    }
}

/// Label spellings of the OoTRandomizer/OoT-Randomizer repository.
pub open spec fn ootr_pairs() -> LabelPairs {
    seq![
        ("Changes Item Table"@, "Changes Item Table"@),
        ("Algorithm Changes"@, "Component: Algorithm"@),
        ("Component: Algorithm"@, "Component: Algorithm"@),
        ("ASM/C Changes"@, "Component: ASM/C"@),
        ("Component: ASM/C"@, "Component: ASM/C"@),
        ("Component: Cosmetics"@, "Component: Cosmetics"@),
        ("Component: Documentation"@, "Component: Documentation"@),
        ("Component: GUI/Website"@, "Component: GUI/Website"@),
        ("Component: Hints"@, "Component: Hints"@),
        ("Component: Logic"@, "Component: Logic"@),
        ("Logic Changes"@, "Component: Logic"@),
        ("Component: Misc"@, "Component: Misc"@),
        ("Component: Patching"@, "Component: Patching"@),
        ("Component: Plandomizer"@, "Component: Plandomizer"@),
        ("Component: Presets"@, "Component: Presets"@),
        ("Component: Randomizer Core"@, "Component: Randomizer Core"@),
        ("Component: Setting"@, "Component: Setting"@),
        ("Component: Tricks/Glitches"@, "Component: Tricks/Glitches"@),
        ("Racing Impact"@, "Racing Impact"@),
        ("Status: Blocked"@, "Status: Blocked"@),
        ("Status: Duplicate"@, "Status: Duplicate"@),
        ("duplicate"@, "Status: Duplicate"@),
        ("Status: Good First Issue"@, "Status: Good First Issue"@),
        ("good first issue"@, "Status: Good First Issue"@),
        ("Status: Help Wanted"@, "Status: Help Wanted"@),
        ("help wanted"@, "Status: Help Wanted"@),
        ("Needs Review"@, "Status: Needs Review"@),
        ("Status: Needs Review"@, "Status: Needs Review"@),
        ("Status: Needs Testing"@, "Status: Needs Testing"@),
        ("Status: Under Consideration"@, "Status: Under Consideration"@),
        ("Status: Waiting for Author"@, "Status: Waiting for Author"@),
        ("Waiting for Author"@, "Status: Waiting for Author"@),
        ("question"@, "Status: Waiting for Author"@),
        ("Status: Waiting for Maintainers"@, "Status: Waiting for Maintainers"@),
        ("Status: Waiting for Release"@, "Status: Waiting for Release"@),
        ("Status: Won't Fix"@, "Status: Won't Fix"@),
        ("wontfix"@, "Status: Won't Fix"@),
        ("Trivial"@, "Trivial"@),
        ("trivial"@, "Trivial"@),
        ("Type: Bug"@, "Type: Bug"@),
        ("bug"@, "Type: Bug"@),
        ("Type: Enhancement"@, "Type: Enhancement"@),
        ("enhancement"@, "Type: Enhancement"@),
        ("Type: Maintenance"@, "Type: Maintenance"@)
    ]
}

/// Label spellings of the midoshouse/ootr-multiworld repository.
pub open spec fn mhmw_pairs() -> LabelPairs {
    seq![
        ("component: GUI"@, "component: GUI"@),
        ("component: gui"@, "component: GUI"@),
        ("component: installer"@, "component: installer"@),
        ("component: server"@, "component: server"@),
        ("component: updater"@, "component: updater"@),
        ("bizhawk"@, "frontend: BizHawk"@),
        ("frontend: BizHawk"@, "frontend: BizHawk"@),
        ("platform: BizHawk"@, "frontend: BizHawk"@),
        ("frontend: EverDrive"@, "frontend: EverDrive"@),
        ("platform: EverDrive"@, "frontend: EverDrive"@),
        ("frontend: Project64"@, "frontend: Project64"@),
        ("project64"@, "frontend: Project64"@),
        ("frontend: RetroArch"@, "frontend: RetroArch"@),
        ("platform: RetroArch"@, "frontend: RetroArch"@),
        ("has workaround"@, "has workaround"@),
        ("os: Linux"@, "os: Linux"@),
        ("os: macOS"@, "os: macOS"@),
        ("os: Windows"@, "os: Windows"@),
        ("status: blocked"@, "status: blocked"@),
        ("status: duplicate"@, "status: duplicate"@),
        ("status: good first issue"@, "status: good first issue"@),
        ("help wanted"@, "status: help wanted"@),
        ("status: help wanted"@, "status: help wanted"@),
        ("status: in progress"@, "status: in progress"@),
        ("status: invalid"@, "status: invalid"@),
        ("status: pending release"@, "status: pending release"@),
        ("status: question"@, "status: question"@),
        ("status: released"@, "status: released"@),
        ("status: wontfix"@, "status: wontfix"@),
        ("bug"@, "type: bug"@),
        ("type: bug"@, "type: bug"@),
        ("type: documentation"@, "type: documentation"@),
        ("enhancement"@, "type: enhancement"@),
        ("type: enhancement"@, "type: enhancement"@),
        ("type: maintenance"@, "type: maintenance"@)
    ]
}

/// Builds the table of the OoTRandomizer/OoT-Randomizer repository.
#[verifier::rlimit(50)]
pub fn ootr_table() -> (r: LabelTable)
    ensures
        r@ == ootr_pairs(),
{
    let mut t = LabelTable::identity();
        t.add("Changes Item Table", "Changes Item Table");
        t.add("Algorithm Changes", "Component: Algorithm");
        t.add("Component: Algorithm", "Component: Algorithm");
        t.add("ASM/C Changes", "Component: ASM/C");
        t.add("Component: ASM/C", "Component: ASM/C");
        t.add("Component: Cosmetics", "Component: Cosmetics");
        t.add("Component: Documentation", "Component: Documentation");
        t.add("Component: GUI/Website", "Component: GUI/Website");
        t.add("Component: Hints", "Component: Hints");
        t.add("Component: Logic", "Component: Logic");
        t.add("Logic Changes", "Component: Logic");
        t.add("Component: Misc", "Component: Misc");
        t.add("Component: Patching", "Component: Patching");
        t.add("Component: Plandomizer", "Component: Plandomizer");
        t.add("Component: Presets", "Component: Presets");
        t.add("Component: Randomizer Core", "Component: Randomizer Core");
        t.add("Component: Setting", "Component: Setting");
        t.add("Component: Tricks/Glitches", "Component: Tricks/Glitches");
        t.add("Racing Impact", "Racing Impact");
        t.add("Status: Blocked", "Status: Blocked");
        t.add("Status: Duplicate", "Status: Duplicate");
        t.add("duplicate", "Status: Duplicate");
        t.add("Status: Good First Issue", "Status: Good First Issue");
        t.add("good first issue", "Status: Good First Issue");
        t.add("Status: Help Wanted", "Status: Help Wanted");
        t.add("help wanted", "Status: Help Wanted");
        t.add("Needs Review", "Status: Needs Review");
        t.add("Status: Needs Review", "Status: Needs Review");
        t.add("Status: Needs Testing", "Status: Needs Testing");
        t.add("Status: Under Consideration", "Status: Under Consideration");
        t.add("Status: Waiting for Author", "Status: Waiting for Author");
        t.add("Waiting for Author", "Status: Waiting for Author");
        t.add("question", "Status: Waiting for Author");
        t.add("Status: Waiting for Maintainers", "Status: Waiting for Maintainers");
        t.add("Status: Waiting for Release", "Status: Waiting for Release");
        t.add("Status: Won't Fix", "Status: Won't Fix");
        t.add("wontfix", "Status: Won't Fix");
        t.add("Trivial", "Trivial");
        t.add("trivial", "Trivial");
        t.add("Type: Bug", "Type: Bug");
        t.add("bug", "Type: Bug");
        t.add("Type: Enhancement", "Type: Enhancement");
        t.add("enhancement", "Type: Enhancement");
        t.add("Type: Maintenance", "Type: Maintenance");
    assert(t@ =~= ootr_pairs());
    t
}

/// Builds the table of the midoshouse/ootr-multiworld repository.
#[verifier::rlimit(50)]
pub fn mhmw_table() -> (r: LabelTable)
    ensures
        r@ == mhmw_pairs(),
{
    let mut t = LabelTable::identity();
        t.add("component: GUI", "component: GUI");
        t.add("component: gui", "component: GUI");
        t.add("component: installer", "component: installer");
        t.add("component: server", "component: server");
        t.add("component: updater", "component: updater");
        t.add("bizhawk", "frontend: BizHawk");
        t.add("frontend: BizHawk", "frontend: BizHawk");
        t.add("platform: BizHawk", "frontend: BizHawk");
        t.add("frontend: EverDrive", "frontend: EverDrive");
        t.add("platform: EverDrive", "frontend: EverDrive");
        t.add("frontend: Project64", "frontend: Project64");
        t.add("project64", "frontend: Project64");
        t.add("frontend: RetroArch", "frontend: RetroArch");
        t.add("platform: RetroArch", "frontend: RetroArch");
        t.add("has workaround", "has workaround");
        t.add("os: Linux", "os: Linux");
        t.add("os: macOS", "os: macOS");
        t.add("os: Windows", "os: Windows");
        t.add("status: blocked", "status: blocked");
        t.add("status: duplicate", "status: duplicate");
        t.add("status: good first issue", "status: good first issue");
        t.add("help wanted", "status: help wanted");
        t.add("status: help wanted", "status: help wanted");
        t.add("status: in progress", "status: in progress");
        t.add("status: invalid", "status: invalid");
        t.add("status: pending release", "status: pending release");
        t.add("status: question", "status: question");
        t.add("status: released", "status: released");
        t.add("status: wontfix", "status: wontfix");
        t.add("bug", "type: bug");
        t.add("type: bug", "type: bug");
        t.add("type: documentation", "type: documentation");
        t.add("enhancement", "type: enhancement");
        t.add("type: enhancement", "type: enhancement");
        t.add("type: maintenance", "type: maintenance");
    assert(t@ =~= mhmw_pairs());
    t
}

} // verus!
