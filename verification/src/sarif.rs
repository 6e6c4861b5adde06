//! SARIF 2.1.0 output, for code scanning services that read it.
//!
//! The account -- residue, unreadable files, unparsed templates -- is not a
//! defect in the code and must not read as one, so what has no location goes
//! in as a tool-execution notification rather than a result. Writing the JSON
//! happens outside the library; this builds the document.

use crate::text::{bytes_less, less_bytes, owned, lemma_bytes_less_total, lemma_bytes_less_transitive, lemma_bytes_less_irreflexive};
use vstd::prelude::*;
use vstd::string::{StrSliceExecFns, StringSliceAdditionalSpecFns};

verus! {

pub struct Sarif {
    pub schema: &'static str,
    pub version: &'static str,
    pub runs: Vec<Run>,
}

pub struct Run {
    pub tool: Tool,
    pub results: Vec<SarifResult>,
    pub invocations: Vec<Invocation>,
}

pub struct Tool {
    pub driver: Driver,
}

pub struct Driver {
    pub name: &'static str,
    pub version: &'static str,
    pub information_uri: &'static str,
    pub rules: Vec<ReportingDescriptor>,
}

/// One rule, described once and referenced by id from every result.
pub struct ReportingDescriptor {
    pub id: String,
    pub short_description: Message,
}

pub struct SarifResult {
    pub rule_id: String,
    pub level: &'static str,
    pub message: Message,
    pub locations: Vec<Location>,
}

pub struct Message {
    pub text: String,
}

pub struct Location {
    pub physical_location: PhysicalLocation,
}

pub struct PhysicalLocation {
    pub artifact_location: ArtifactLocation,
    pub region: Region,
}

pub struct ArtifactLocation {
    pub uri: String,
}

pub struct Region {
    pub start_line: usize,
    pub start_column: usize,
}

pub struct Invocation {
    pub execution_successful: bool,
    pub tool_execution_notifications: Vec<Notification>,
}

pub struct Notification {
    pub level: &'static str,
    pub message: Message,
}

/// A result, before it knows what level it is.
pub struct Entry {
    pub rule: String,
    pub file: String,
    pub line: usize,
    pub col: usize,
    pub text: String,
    pub level: &'static str,
}

/// A path without its leading `./`s: code scanning matches these against
/// paths in the repository, and a `./` prefix makes every annotation land
/// nowhere.
pub open spec fn without_dot_slash(s: Seq<char>) -> Seq<char>
    decreases s.len(),
{
    if s.len() >= 2 && s[0] == '.' && s[1] == '/' {
        without_dot_slash(s.subrange(2, s.len() as int))
    } else {
        s
    }
}

/// The rule ids, as bytes.
pub open spec fn rule_bytes(entries: Seq<Entry>) -> Set<Seq<u8>> {
    Set::new(|b: Seq<u8>| exists|i: int| 0 <= i < entries.len() && vstd::utf8::encode_utf8(
        #[trigger] entries[i].rule@,
    ) == b)
}

/// Strictly increasing, byte by byte.
pub open spec fn strictly_sorted(ids: Seq<Seq<u8>>) -> bool {
    forall|i: int, j: int| 0 <= i < j < ids.len() ==> bytes_less(#[trigger] ids[i], #[trigger] ids[j])
}

pub open spec fn descriptor_ids(rules: Seq<ReportingDescriptor>) -> Seq<Seq<u8>> {
    rules.map_values(|d: ReportingDescriptor| vstd::utf8::encode_utf8(d.id@))
}

/// The result an entry becomes.
pub open spec fn result_for(r: SarifResult, e: Entry) -> bool {
    &&& r.rule_id@ == e.rule@
    &&& r.level == e.level
    &&& r.message.text@ == e.text@
    &&& r.locations@.len() == 1
    &&& r.locations@[0].physical_location.artifact_location.uri@ == without_dot_slash(e.file@)
    &&& r.locations@[0].physical_location.region.start_line == (if e.line < 1 { 1 } else { e.line })
    &&& r.locations@[0].physical_location.region.start_column == (if e.col < 1 { 1 } else { e.col })
}

/// The document for a set of entries and notes: one run; each rule id
/// described once, in order; each entry one result at its line and column
/// (never below 1); and the notes, when there are any, as notifications of
/// one successful invocation.
pub open spec fn describes(s: Sarif, entries: Seq<Entry>, notes: Seq<String>, version: &'static str) -> bool {
    &&& s.schema@ == "https://raw.githubusercontent.com/oasis-tcs/sarif-spec/main/sarif-2.1/schema/sarif-schema-2.1.0.json"@
    &&& s.version@ == "2.1.0"@
    &&& s.runs@.len() == 1
    &&& s.runs@[0].tool.driver.name@ == "rwr"@
    &&& s.runs@[0].tool.driver.version == version
    &&& s.runs@[0].tool.driver.information_uri@ == "https://github.com/dpep/rwr"@
    &&& strictly_sorted(descriptor_ids(s.runs@[0].tool.driver.rules@))
    &&& descriptor_ids(s.runs@[0].tool.driver.rules@).to_set() == rule_bytes(entries)
    &&& forall|k: int|
        0 <= k < s.runs@[0].tool.driver.rules@.len() ==> (#[trigger] s.runs@[0].tool.driver.rules@[k]).short_description.text@
            == s.runs@[0].tool.driver.rules@[k].id@
    &&& s.runs@[0].results@.len() == entries.len()
    &&& forall|k: int| 0 <= k < entries.len() ==> result_for(#[trigger] s.runs@[0].results@[k], entries[k])
    &&& notes.len() == 0 ==> s.runs@[0].invocations@.len() == 0
    &&& notes.len() > 0 ==> {
        &&& s.runs@[0].invocations@.len() == 1
        &&& s.runs@[0].invocations@[0].execution_successful
        &&& s.runs@[0].invocations@[0].tool_execution_notifications@.len() == notes.len()
        &&& forall|k: int|
            0 <= k < notes.len() ==> (#[trigger] s.runs@[0].invocations@[0].tool_execution_notifications@[k]).level@
                == "note"@ && s.runs@[0].invocations@[0].tool_execution_notifications@[k].message.text@
                == notes[k]@
    }
}

fn strip_dot_slash(s: &str) -> (r: String)
    ensures
        r@ == without_dot_slash(s@),
{
    let mut rest: &str = s;
    loop
        invariant
            without_dot_slash(rest@) == without_dot_slash(s@),
        decreases rest@.len(),
    {
        let n = rest.unicode_len();
        if n >= 2 && rest.get_char(0) == '.' && rest.get_char(1) == '/' {
            rest = rest.substring_char(2, n);
        } else {
            return owned(rest);
        }
    }
}

pub open spec fn id_bytes(ids: Seq<String>) -> Seq<Seq<u8>> {
    ids.map_values(|s: String| vstd::utf8::encode_utf8(s@))
}

/// Insert an id into a strictly sorted list, unless it is there already.
fn insert_sorted(ids: &mut Vec<String>, id: &str)
    requires
        strictly_sorted(id_bytes(old(ids)@)),
    ensures
        strictly_sorted(id_bytes(final(ids)@)),
        id_bytes(final(ids)@).to_set() == id_bytes(old(ids)@).to_set().insert(id.spec_bytes()),
{
    let ghost before = id_bytes(ids@);
    let key = id.as_bytes();
    let mut k: usize = 0;
    while k < ids.len() && less_bytes(ids[k].as_str().as_bytes(), key)
        invariant
            k <= ids@.len(),
            ids@ == old(ids)@,
            before == id_bytes(ids@),
            strictly_sorted(before),
            key@ == id.spec_bytes(),
            forall|j: int| 0 <= j < k ==> bytes_less(#[trigger] before[j], key@),
        decreases ids@.len() - k,
    {
        assert(before[k as int] == vstd::utf8::encode_utf8(ids@[k as int]@));
        k += 1;
    }
    if k < ids.len() && crate::text::bytes_eq(ids[k].as_str().as_bytes(), key) {
        proof {
            assert(before[k as int] == key@);
            assert(before.to_set().insert(key@) =~= before.to_set());
        }
        return;
    }
    let ghost at = k as int;
    ids.insert(k, owned(id));
    proof {
        let after = id_bytes(ids@);
        assert(after =~= before.insert(at, key@));
        if at < before.len() {
            lemma_bytes_less_total(before[at], key@);
        }
        assert forall|i: int, j: int| 0 <= i < j < after.len() implies bytes_less(#[trigger] after[i], #[trigger] after[j]) by {
            if j < at {
            } else if i < at && j == at {
            } else if i < at && j > at {
                assert(bytes_less(before[i], key@));
                if at < before.len() {
                    assert(bytes_less(key@, before[at]));
                    if j - 1 > at {
                        assert(bytes_less(before[at], before[j - 1]));
                        lemma_bytes_less_transitive(key@, before[at], before[j - 1]);
                    }
                    lemma_bytes_less_transitive(before[i], key@, before[j - 1]);
                }
            } else if i == at {
                assert(bytes_less(key@, before[at]));
                if j - 1 > at {
                    assert(bytes_less(before[at], before[j - 1]));
                    lemma_bytes_less_transitive(key@, before[at], before[j - 1]);
                }
            } else {
            }
        }
        assert(after.to_set() =~= before.to_set().insert(key@)) by {
            assert forall|x: Seq<u8>| after.to_set().contains(x) implies before.to_set().insert(key@).contains(x) by {
                let i = choose|i: int| 0 <= i < after.len() && after[i] == x;
                if i < at {
                    assert(before[i] == x);
                } else if i > at {
                    assert(before[i - 1] == x);
                }
            }
            assert forall|x: Seq<u8>| before.to_set().insert(key@).contains(x) implies after.to_set().contains(x) by {
                if x == key@ {
                    assert(after[at] == x);
                } else {
                    let i = choose|i: int| 0 <= i < before.len() && before[i] == x;
                    if i < at {
                        assert(after[i] == x);
                    } else {
                        assert(after[i + 1] == x);
                    }
                }
            }
        }
    }
}

/// The rule ids of the first `k` entries, as bytes.
pub open spec fn rule_bytes_upto(entries: Seq<Entry>, k: int) -> Set<Seq<u8>> {
    Set::new(|b: Seq<u8>| exists|i: int| 0 <= i < k && vstd::utf8::encode_utf8(#[trigger] entries[i].rule@) == b)
}

impl Sarif {
    /// Build a run from what was found. `notes` are the things with no line
    /// to point at -- files that would not parse, templates only searched as
    /// text -- and a made-up location would be inventing evidence.
    pub fn new(entries: Vec<Entry>, notes: Vec<String>, version: &'static str) -> (s: Sarif)
        ensures
            describes(s, entries@, notes@, version),
    {
        let mut ids: Vec<String> = Vec::new();
        let mut k: usize = 0;
        proof {
            assert(id_bytes(ids@).to_set() =~= rule_bytes_upto(entries@, 0));
        }
        while k < entries.len()
            invariant
                k <= entries@.len(),
                strictly_sorted(id_bytes(ids@)),
                id_bytes(ids@).to_set() == rule_bytes_upto(entries@, k as int),
            decreases entries@.len() - k,
        {
            let ghost was = id_bytes(ids@).to_set();
            insert_sorted(&mut ids, entries[k].rule.as_str());
            proof {
                assert(id_bytes(ids@).to_set() =~= rule_bytes_upto(entries@, k + 1)) by {
                    assert forall|b: Seq<u8>| rule_bytes_upto(entries@, k + 1).contains(b) implies was.insert(
                        vstd::utf8::encode_utf8(entries@[k as int].rule@),
                    ).contains(b) by {
                        let i = choose|i: int| 0 <= i < k + 1 && vstd::utf8::encode_utf8(#[trigger] entries@[i].rule@) == b;
                        if i < k {
                            assert(rule_bytes_upto(entries@, k as int).contains(b));
                        }
                    }
                    assert forall|b: Seq<u8>| was.insert(vstd::utf8::encode_utf8(entries@[k as int].rule@)).contains(b)
                        implies rule_bytes_upto(entries@, k + 1).contains(b) by {
                        if b == vstd::utf8::encode_utf8(entries@[k as int].rule@) {
                        } else {
                            assert(rule_bytes_upto(entries@, k as int).contains(b));
                            let i = choose|i: int| 0 <= i < k && vstd::utf8::encode_utf8(#[trigger] entries@[i].rule@) == b;
                            assert(0 <= i < k + 1);
                        }
                    }
                }
            }
            k += 1;
        }
        proof {
            assert(rule_bytes_upto(entries@, entries@.len() as int) =~= rule_bytes(entries@));
        }
        let mut rules: Vec<ReportingDescriptor> = Vec::new();
        let mut i: usize = 0;
        while i < ids.len()
            invariant
                i <= ids@.len(),
                rules@.len() == i,
                forall|j: int| 0 <= j < i ==> (#[trigger] rules@[j]).id@ == ids@[j]@ && rules@[j].short_description.text@ == ids@[j]@,
            decreases ids@.len() - i,
        {
            rules.push(
                ReportingDescriptor {
                    id: owned(ids[i].as_str()),
                    short_description: Message { text: owned(ids[i].as_str()) },
                },
            );
            i += 1;
        }
        proof {
            assert(descriptor_ids(rules@) =~= id_bytes(ids@));
        }
        let mut results: Vec<SarifResult> = Vec::new();
        let mut j: usize = 0;
        while j < entries.len()
            invariant
                j <= entries@.len(),
                results@.len() == j,
                forall|x: int| 0 <= x < j ==> result_for(#[trigger] results@[x], entries@[x]),
            decreases entries@.len() - j,
        {
            let e = &entries[j];
            let mut locations: Vec<Location> = Vec::new();
            locations.push(
                Location {
                    physical_location: PhysicalLocation {
                        artifact_location: ArtifactLocation { uri: strip_dot_slash(e.file.as_str()) },
                        region: Region {
                            start_line: if e.line < 1 {
                                1
                            } else {
                                e.line
                            },
                            start_column: if e.col < 1 {
                                1
                            } else {
                                e.col
                            },
                        },
                    },
                },
            );
            results.push(
                SarifResult {
                    rule_id: owned(e.rule.as_str()),
                    level: e.level,
                    message: Message { text: owned(e.text.as_str()) },
                    locations,
                },
            );
            j += 1;
        }
        let mut invocations: Vec<Invocation> = Vec::new();
        if notes.len() > 0 {
            let mut notifications: Vec<Notification> = Vec::new();
            let mut m: usize = 0;
            while m < notes.len()
                invariant
                    m <= notes@.len(),
                    notifications@.len() == m,
                    forall|x: int| 0 <= x < m ==> (#[trigger] notifications@[x]).level@ == "note"@
                        && notifications@[x].message.text@ == notes@[x]@,
                decreases notes@.len() - m,
            {
                notifications.push(
                    Notification { level: "note", message: Message { text: owned(notes[m].as_str()) } },
                );
                m += 1;
            }
            invocations.push(
                Invocation { execution_successful: true, tool_execution_notifications: notifications },
            );
        }
        let mut runs: Vec<Run> = Vec::new();
        runs.push(
            Run {
                tool: Tool {
                    driver: Driver {
                        name: "rwr",
                        version,
                        information_uri: "https://github.com/dpep/rwr",
                        rules,
                    },
                },
                results,
                invocations,
            },
        );
        Sarif {
            schema: "https://raw.githubusercontent.com/oasis-tcs/sarif-spec/main/sarif-2.1/schema/sarif-schema-2.1.0.json",
            version: "2.1.0",
            runs,
        }
    }
}

} // verus!
