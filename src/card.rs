//! The model card: quantization labels of each group, the examples table,
//! and the appendix of topology files.

use vstd::prelude::*;
use vstd::string::*;
use crate::text::{
    last_index_of, all_ascii_digits, upper_of, trim_of, lemma_last_index_of_bounds,
    lemma_last_index_of_step, find_last, is_all_ascii_digits, uppercase, trim,
    lemma_last_index_of_split,
};

verus! {

/// The segment of a stem that names its quantization: the last `-` segment,
/// or the one before it when the last is all digits.
pub open spec fn label_segment_of(stem: Seq<char>) -> Seq<char> {
    let k = last_index_of(stem, '-');
    if k < 0 {
        stem
    } else if all_ascii_digits(stem.skip(k + 1)) {
        let p = stem.take(k);
        p.skip(last_index_of(p, '-') + 1)
    } else {
        stem.skip(k + 1)
    }
}

/// The label proposed for a group whose representative has this stem.
pub open spec fn default_label_of(stem: Seq<char>) -> Seq<char> {
    upper_of(label_segment_of(stem))
}

/// `s` cut at every `c`, as `str::split` with a character does.
pub open spec fn split_on(s: Seq<char>, c: char) -> Seq<Seq<char>>
    decreases s.len(),
{
    let k = last_index_of(s, c);
    if k < 0 || k >= s.len() {
        seq![s]
    } else {
        split_on(s.take(k), c).push(s.skip(k + 1))
    }
}

/// The parts joined with `sep` between neighbours.
pub open spec fn join_with(parts: Seq<Seq<char>>, sep: Seq<char>) -> Seq<char>
    decreases parts.len(),
{
    if parts.len() == 0 {
        Seq::empty()
    } else if parts.len() == 1 {
        parts[0]
    } else {
        join_with(parts.drop_last(), sep) + sep + parts.last()
    }
}

/// The text the operator's answer stands for: the proposed label when the
/// answer is blank, else the answer upper-cased.
pub open spec fn chosen_of(default: Seq<char>, input: Seq<char>) -> Seq<char> {
    if trim_of(input).len() == 0 {
        default
    } else {
        upper_of(input)
    }
}

/// Each comma-separated name of a multi-scheme answer, trimmed and upper-cased.
pub open spec fn scheme_names_of(chosen: Seq<char>) -> Seq<Seq<char>> {
    split_on(chosen, ',').map_values(|p: Seq<char>| upper_of(trim_of(p)))
}

/// The quantization of one group as the operator settled it.
pub enum QuantLabel {
    /// One scheme.
    Single(String),
    /// Several schemes; the group also needs a topology file.
    Multi(Vec<String>),
}

impl QuantLabel {
    /// Whether the group used several schemes.
    pub fn is_multi(&self) -> (r: bool)
        ensures
            r == (self is Multi),
    {
        match self {
            QuantLabel::Single(_) => false,
            QuantLabel::Multi(_) => true,
        }
    }
}

/// What a settled label means for the chosen text.
pub open spec fn label_matches(r: QuantLabel, chosen: Seq<char>) -> bool {
    match r {
        QuantLabel::Single(x) => !chosen.contains(',') && x@ == trim_of(chosen),
        QuantLabel::Multi(v) => chosen.contains(',') && v@.map_values(|s: String| s@)
            == scheme_names_of(chosen),
    }
}

/// The first cell of a table row.
pub open spec fn label_cell_of(r: QuantLabel) -> Seq<char> {
    match r {
        QuantLabel::Single(x) => x@,
        QuantLabel::Multi(v) => join_with(v@.map_values(|s: String| s@), ","@)
            + " (see topology for this file)"@,
    }
}

/// The server mode for the example command.
pub open spec fn mode_of(is_vision: bool) -> Seq<char> {
    if is_vision {
        "vision-plain"@
    } else {
        "plain"@
    }
}

/// One row of the examples table.
pub open spec fn row_of(r: QuantLabel, display_id: Seq<char>, file: Seq<char>, is_vision: bool) -> Seq<
    char,
> {
    "|"@ + label_cell_of(r) + "|`./mistralrs-server -i "@ + mode_of(is_vision) + " -m "@ + display_id
        + " -f "@ + file + "`|\n"@
}

pub proof fn lemma_contains_last_index(s: Seq<char>, c: char)
    ensures
        s.contains(c) == (last_index_of(s, c) >= 0),
{
    lemma_last_index_of_bounds(s, c);
    if s.contains(c) {
        let j = choose|j: int| 0 <= j < s.len() && s[j] == c;
        assert(s[j] == c);
    }
}

proof fn lemma_split_step(s: Seq<char>, c: char, i: int)
    requires
        0 <= i < s.len(),
    ensures
        split_on(s.take(i + 1), c) == if s[i] == c {
            split_on(s.take(i), c).push(Seq::empty())
        } else {
            split_on(s.take(i), c).drop_last().push(
                s.subrange(last_index_of(s.take(i), c) + 1, i + 1),
            )
        },
{
    let t = s.take(i + 1);
    let u = s.take(i);
    lemma_last_index_of_step(s, c, i);
    lemma_last_index_of_bounds(u, c);
    lemma_last_index_of_bounds(t, c);
    let k = last_index_of(u, c);
    if s[i] == c {
        assert(t.take(i) =~= u);
        assert(t.skip(i + 1) =~= Seq::<char>::empty());
    } else if k < 0 {
        assert(s.subrange(0, i + 1) =~= t);
    } else {
        assert(t.take(k) =~= u.take(k));
        assert(t.skip(k + 1) =~= s.subrange(k + 1, i + 1));
    }
}

/// `s` cut at every `c`.
pub fn split_at_char(s: &str, c: char) -> (r: Vec<String>)
    ensures
        r@.map_values(|p: String| p@) == split_on(s@, c),
{
    let n = s.unicode_len();
    let mut parts: Vec<String> = Vec::new();
    let mut start: usize = 0;
    let mut i: usize = 0;
    assert(s@.take(0) =~= Seq::<char>::empty());
    assert(s@.subrange(0, 0) =~= Seq::<char>::empty());
    while i < n
        invariant
            n == s@.len(),
            start <= i <= n,
            start == last_index_of(s@.take(i as int), c) + 1,
            parts@.map_values(|p: String| p@).push(s@.subrange(start as int, i as int)) == split_on(
                s@.take(i as int),
                c,
            ),
        decreases n - i,
    {
        proof {
            lemma_split_step(s@, c, i as int);
            lemma_last_index_of_step(s@, c, i as int);
            lemma_last_index_of_bounds(s@.take(i as int), c);
        }
        let ghost before = parts@.map_values(|p: String| p@);
        if s.get_char(i) == c {
            parts.push(s.substring_char(start, i).to_string());
            assert(parts@.map_values(|p: String| p@) =~= before.push(s@.subrange(start as int, i as int)));
            start = i + 1;
            assert(s@.subrange(start as int, i + 1) =~= Seq::<char>::empty());
        } else {
            assert(before.push(s@.subrange(start as int, i as int)).drop_last() =~= before);
        }
        i = i + 1;
    }
    parts.push(s.substring_char(start, n).to_string());
    assert(s@.take(n as int) =~= s@);
    parts
}

/// The parts joined with `sep`.
pub fn join_strings(parts: &Vec<String>, sep: &str) -> (r: String)
    ensures
        r@ == join_with(parts@.map_values(|p: String| p@), sep@),
{
    let ghost all = parts@.map_values(|p: String| p@);
    let mut r = String::new();
    let mut i: usize = 0;
    assert(all.take(0) =~= Seq::<Seq<char>>::empty());
    while i < parts.len()
        invariant
            all == parts@.map_values(|p: String| p@),
            i <= parts@.len(),
            r@ == join_with(all.take(i as int), sep@),
        decreases parts@.len() - i,
    {
        assert(all.take(i + 1).drop_last() =~= all.take(i as int));
        if i > 0 {
            r.append(sep);
        } else {
            assert(r@ + parts@[0]@ =~= all.take(1)[0]);
        }
        r.append(parts[i].as_str());
        i = i + 1;
    }
    assert(all.take(parts@.len() as int) =~= all);
    r
}

/// The label proposed for a group from its representative's stem.
pub fn default_label(stem: &str) -> (r: String)
    ensures
        r@ == default_label_of(stem@),
{
    proof {
        lemma_last_index_of_bounds(stem@, '-');
    }
    let n = stem.unicode_len();
    match find_last(stem, '-') {
        None => uppercase(stem),
        Some(k) => {
            if is_all_ascii_digits(stem.substring_char(k + 1, n)) {
                let p = stem.substring_char(0, k);
                proof {
                    lemma_last_index_of_bounds(p@, '-');
                }
                match find_last(p, '-') {
                    Some(j) => uppercase(p.substring_char(j + 1, k)),
                    None => {
                        assert(p@.skip(0) =~= p@);
                        uppercase(p)
                    },
                }
            } else {
                uppercase(stem.substring_char(k + 1, n))
            }
        },
    }
}

/// Settles a group's label from the proposed one and the operator's answer.
pub fn resolve_label(default: &str, input: &str) -> (r: QuantLabel)
    ensures
        label_matches(r, chosen_of(default@, input@)),
{
    let t = trim(input);
    let chosen = if t.unicode_len() == 0 {
        default.to_string()
    } else {
        uppercase(input)
    };
    proof {
        lemma_contains_last_index(chosen@, ',');
    }
    match find_last(chosen.as_str(), ',') {
        None => QuantLabel::Single(trim(chosen.as_str())),
        Some(_) => {
            let parts = split_at_char(chosen.as_str(), ',');
            let ghost pv = parts@.map_values(|p: String| p@);
            let mut names: Vec<String> = Vec::new();
            let mut i: usize = 0;
            while i < parts.len()
                invariant
                    pv == parts@.map_values(|p: String| p@),
                    i <= parts@.len(),
                    names@.map_values(|s: String| s@) == pv.take(i as int).map_values(
                        |p: Seq<char>| upper_of(trim_of(p)),
                    ),
                decreases parts@.len() - i,
            {
                let x = trim(parts[i].as_str());
                let ghost before = names@.map_values(|s: String| s@);
                assert(pv[i as int] == parts@[i as int]@);
                let y = uppercase(x.as_str());
                names.push(y);
                assert(names@.map_values(|s: String| s@) =~= before.push(y@));
                assert(pv.take(i + 1).map_values(|p: Seq<char>| upper_of(trim_of(p))) =~= pv.take(
                    i as int,
                ).map_values(|p: Seq<char>| upper_of(trim_of(p))).push(upper_of(trim_of(pv[i as int]))));
                assert(names@.map_values(|s: String| s@) =~= pv.take(i + 1).map_values(
                    |p: Seq<char>| upper_of(trim_of(p)),
                ));
                i = i + 1;
            }
            assert(pv.take(parts@.len() as int) =~= pv);
            QuantLabel::Multi(names)
        },
    }
}

/// One row of the examples table for a group.
pub fn render_row(label: &QuantLabel, display_model_id: &str, file: &str, is_vision: bool) -> (r:
    String)
    ensures
        r@ == row_of(*label, display_model_id@, file@, is_vision),
{
    let mut r = String::from_str("|");
    match label {
        QuantLabel::Single(x) => r.append(x.as_str()),
        QuantLabel::Multi(v) => {
            let j = join_strings(v, ",");
            r.append(j.as_str());
            r.append(" (see topology for this file)");
        },
    }
    r.append("|`./mistralrs-server -i ");
    if is_vision {
        r.append("vision-plain");
    } else {
        r.append("plain");
    }
    r.append(" -m ");
    r.append(display_model_id);
    r.append(" -f ");
    r.append(file);
    r.append("`|\n");
    r
}

/// The fixed description placed under the title.
pub const INTRO: &'static str = "
Run with [mistral.rs](https://github.com/EricLBuehler/mistral.rs). Documentation: [UQFF docs](https://github.com/EricLBuehler/mistral.rs/blob/master/docs/UQFF.md).

1) **Flexible** 🌀: Multiple quantization formats in *one* file format with *one* framework to run them all.
2) **Reliable** 🔒: Compatibility ensured with *embedded* and *checked* semantic versioning information from day 1.
3) **Easy** 🤗: Download UQFF models *easily* and *quickly* from Hugging Face, or use a local file.
3) **Customizable** 🛠️: Make and publish your own UQFF files in minutes.
";

/// Opens the appendix of topology files.
pub const TOPOLOGY_HEADING: &'static str = "\n\n## Topologies\n**The following model topologies were used to generate this UQFF file. Only information pertaining to ISQ is relevant.**\n";

/// Shown in place of a topology file that could not be read.
pub const UNREADABLE_TOPOLOGY: &'static str = "<Could not read topology file>";

/// Everything before the first table row.
pub open spec fn header_of(model_id: Seq<char>) -> Seq<char> {
    "---\ntags:\n  - uqff\n  - mistral.rs\nbase_model: "@ + model_id
        + "\nbase_model_relation: quantized\n---\n\n<!-- Autogenerated from user input. -->\n\n"@
        + "# `"@ + model_id + "`, UQFF quantization\n\n"@ + INTRO@ + "\n## Examples\n"@
        + "|Quantization type(s)|Example|\n|--|--|\n"@
}

/// The topology records after recording `file -> topology`: an earlier record
/// for the same file is dropped, so the latest one wins.
pub open spec fn record_topology(
    recs: Seq<(Seq<char>, Seq<char>)>,
    file: Seq<char>,
    topology: Seq<char>,
) -> Seq<(Seq<char>, Seq<char>)> {
    recs.filter(other_file(file)).push((file, topology))
}

/// Holds of the records of every file but `file`.
pub open spec fn other_file(file: Seq<char>) -> spec_fn((Seq<char>, Seq<char>)) -> bool {
    |r: (Seq<char>, Seq<char>)| r.0 != file
}

/// The text shown for one topology file: its contents, or a notice when it could not be read.
pub open spec fn topology_text_of(contents: Option<String>) -> Seq<char> {
    match contents {
        Some(t) => t@,
        None => UNREADABLE_TOPOLOGY@,
    }
}

/// One entry of the appendix.
pub open spec fn topology_entry_of(file: Seq<char>, text: Seq<char>) -> Seq<char> {
    "### Used for `"@ + file + "`\n\n"@ + "```yml\n"@ + text + "\n```\n"@
}

/// The entries for the records, the i-th with the i-th contents.
pub open spec fn topology_entries_of(
    recs: Seq<(Seq<char>, Seq<char>)>,
    contents: Seq<Option<String>>,
) -> Seq<char>
    decreases recs.len(),
{
    if recs.len() == 0 {
        Seq::empty()
    } else {
        topology_entries_of(recs.drop_last(), contents) + topology_entry_of(
            recs.last().0,
            topology_text_of(contents[recs.len() - 1]),
        )
    }
}

/// The appendix: nothing when no group used several schemes.
pub open spec fn appendix_of(recs: Seq<(Seq<char>, Seq<char>)>, contents: Seq<Option<String>>) -> Seq<
    char,
> {
    if recs.len() == 0 {
        Seq::empty()
    } else {
        TOPOLOGY_HEADING@ + topology_entries_of(recs, contents)
    }
}

/// A group that used several schemes, and the topology file it was made with.
pub struct TopologyRecord {
    pub file: String,
    pub topology: String,
}

/// A model card while it is being assembled.
pub struct ModelCard {
    /// The text so far: the header, then one row per group.
    pub text: String,
    /// Whether any group has been added.
    pub has_rows: bool,
    /// One record per multi-scheme file, keyed by the file name.
    pub topologies: Vec<TopologyRecord>,
}

impl ModelCard {
    pub open spec fn records(&self) -> Seq<(Seq<char>, Seq<char>)> {
        self.topologies@.map_values(|r: TopologyRecord| (r.file@, r.topology@))
    }

    /// A card with its header and no groups yet.
    pub fn new(model_id: &str) -> (r: ModelCard)
        ensures
            r.text@ == header_of(model_id@),
            !r.has_rows,
            r.records().len() == 0,
    {
        let mut text = String::from_str("---\ntags:\n  - uqff\n  - mistral.rs\nbase_model: ");
        text.append(model_id);
        text.append(
            "\nbase_model_relation: quantized\n---\n\n<!-- Autogenerated from user input. -->\n\n",
        );
        text.append("# `");
        text.append(model_id);
        text.append("`, UQFF quantization\n\n");
        text.append(INTRO);
        text.append("\n## Examples\n");
        text.append("|Quantization type(s)|Example|\n|--|--|\n");
        ModelCard { text, has_rows: false, topologies: Vec::new() }
    }

    /// The topology records, in the order they stand in the appendix.
    pub fn topologies(&self) -> (r: &Vec<TopologyRecord>)
        ensures
            r@ == self.topologies@,
    {
        &self.topologies
    }

    /// Adds the row of one group; a multi-scheme group comes with its topology file,
    /// which is recorded under the representative file's name.
    pub fn add_group(
        &mut self,
        label: &QuantLabel,
        display_model_id: &str,
        file: &str,
        is_vision: bool,
        topology: Option<&str>,
    )
        requires
            (*label is Multi) == (topology is Some),
        ensures
            final(self).text@ == old(self).text@ + row_of(*label, display_model_id@, file@, is_vision),
            final(self).has_rows,
            final(self).records() == match topology {
                Some(t) => record_topology(old(self).records(), file@, t@),
                None => old(self).records(),
            },
    {
        if let Some(t) = topology {
            self.record(file, t);
        }
        let row = render_row(label, display_model_id, file, is_vision);
        self.text.append(row.as_str());
        self.has_rows = true;
    }

    fn record(&mut self, file: &str, topology: &str)
        ensures
            final(self).text == old(self).text,
            final(self).has_rows == old(self).has_rows,
            final(self).records() == record_topology(old(self).records(), file@, topology@),
    {
        let ghost recs = self.records();
        let mut kept: Vec<TopologyRecord> = Vec::new();
        let n = self.topologies.len();
        let mut i: usize = 0;
        assert(recs.take(0) =~= Seq::<(Seq<char>, Seq<char>)>::empty());
        proof {
            reveal(Seq::filter);
        }
        while i < n
            invariant
                n == self.topologies@.len(),
                recs == self.records(),
                i <= n,
                kept@.map_values(|r: TopologyRecord| (r.file@, r.topology@)) == recs.take(
                    i as int,
                ).filter(other_file(file@)),
            decreases n - i,
        {
            let ghost before = kept@.map_values(|r: TopologyRecord| (r.file@, r.topology@));
            assert(recs.take(i + 1).drop_last() =~= recs.take(i as int));
            assert(recs[i as int] == (self.topologies@[i as int].file@, self.topologies@[i as int].topology@));
            proof {
                reveal(Seq::filter);
                assert(recs.take(i + 1).last() == recs[i as int]);
                assert(recs.take(i + 1).filter(other_file(file@)) == if other_file(file@)(recs[i as int]) {
                    recs.take(i as int).filter(other_file(file@)).push(recs[i as int])
                } else {
                    recs.take(i as int).filter(other_file(file@))
                });
            }
            let entry = &self.topologies[i];
            if !str_eq(entry.file.as_str(), file) {
                assert(other_file(file@)(recs[i as int]));
                let copy = TopologyRecord {
                    file: entry.file.as_str().to_string(),
                    topology: entry.topology.as_str().to_string(),
                };
                kept.push(copy);
                assert(kept@.map_values(|r: TopologyRecord| (r.file@, r.topology@)) =~= before.push(
                    recs[i as int],
                ));
            } else {
                assert(!other_file(file@)(recs[i as int]));
            }
            i = i + 1;
        }
        assert(recs.take(n as int) =~= recs);
        let ghost before = kept@.map_values(|r: TopologyRecord| (r.file@, r.topology@));
        kept.push(TopologyRecord { file: file.to_string(), topology: topology.to_string() });
        assert(kept@.map_values(|r: TopologyRecord| (r.file@, r.topology@)) =~= before.push(
            (file@, topology@),
        ));
        self.topologies = kept;
    }

    /// The finished card, with the text of each topology file (`None` where it
    /// could not be read); nothing when no group was added.
    pub fn finish(&self, contents: &Vec<Option<String>>) -> (r: Option<String>)
        requires
            contents@.len() == self.topologies@.len(),
        ensures
            r is None <==> !self.has_rows,
            r matches Some(s) ==> s@ == self.text@ + appendix_of(self.records(), contents@),
    {
        if !self.has_rows {
            return None;
        }
        let mut out = self.text.as_str().to_string();
        let n = self.topologies.len();
        if n == 0 {
            return Some(out);
        }
        out.append(TOPOLOGY_HEADING);
        let ghost recs = self.records();
        let mut i: usize = 0;
        assert(recs.take(0) =~= Seq::<(Seq<char>, Seq<char>)>::empty());
        while i < n
            invariant
                n == self.topologies@.len(),
                n == contents@.len(),
                recs == self.records(),
                i <= n,
                out@ == self.text@ + TOPOLOGY_HEADING@ + topology_entries_of(recs.take(i as int), contents@),
            decreases n - i,
        {
            assert(recs.take(i + 1).drop_last() =~= recs.take(i as int));
            assert(recs[i as int].0 == self.topologies@[i as int].file@);
            let entry = &self.topologies[i];
            let ghost before = out@;
            out.append("### Used for `");
            out.append(entry.file.as_str());
            out.append("`\n\n");
            out.append("```yml\n");
            match &contents[i] {
                Some(t) => out.append(t.as_str()),
                None => out.append(UNREADABLE_TOPOLOGY),
            }
            out.append("\n```\n");
            assert(out@ =~= before + topology_entry_of(recs[i as int].0, topology_text_of(contents@[i as int])));
            i = i + 1;
        }
        assert(recs.take(n as int) =~= recs);
        Some(out)
    }
}

/// After recording a topology for a file, the file has exactly one record:
/// the one just made, which stands last.
pub proof fn lemma_latest_topology_wins(
    recs: Seq<(Seq<char>, Seq<char>)>,
    file: Seq<char>,
    topology: Seq<char>,
)
    ensures
        ({
            let r = record_topology(recs, file, topology);
            &&& r.len() > 0
            &&& r.last() == (file, topology)
            &&& forall|i: int| 0 <= i < r.len() - 1 ==> (#[trigger] r[i]).0 != file
        }),
{
    let kept = recs.filter(other_file(file));
    assert forall|i: int| 0 <= i < kept.len() implies (#[trigger] kept[i]).0 != file by {
        recs.lemma_filter_pred(other_file(file), i);
    }
}

/// A stem ending in `-<segment>-<digits>` proposes the segment, upper-cased.
pub proof fn lemma_label_before_shard_number(prefix: Seq<char>, segment: Seq<char>, digits: Seq<char>)
    requires
        !segment.contains('-'),
        all_ascii_digits(digits),
    ensures
        default_label_of(prefix + seq!['-'] + segment + seq!['-'] + digits) == upper_of(segment),
{
    let p = prefix + seq!['-'] + segment;
    let s = p + seq!['-'] + digits;
    assert(!digits.contains('-')) by {
        if digits.contains('-') {
            let j = choose|j: int| 0 <= j < digits.len() && digits[j] == '-';
            assert('0' <= digits[j]);
        }
    }
    lemma_last_index_of_split(p, '-', digits);
    assert(s.skip(p.len() as int + 1) =~= digits);
    assert(s.take(p.len() as int) =~= p);
    lemma_last_index_of_split(prefix, '-', segment);
    assert(p.skip(prefix.len() as int + 1) =~= segment);
}

/// A stem ending in `-<segment>`, where the segment is not all digits, proposes
/// that segment, upper-cased.
pub proof fn lemma_label_last_segment(prefix: Seq<char>, segment: Seq<char>)
    requires
        !segment.contains('-'),
        !all_ascii_digits(segment),
    ensures
        default_label_of(prefix + seq!['-'] + segment) == upper_of(segment),
{
    let s = prefix + seq!['-'] + segment;
    lemma_last_index_of_split(prefix, '-', segment);
    assert(s.skip(prefix.len() as int + 1) =~= segment);
}

/// Whether two strings hold the same characters.
pub fn str_eq(a: &str, b: &str) -> (r: bool)
    ensures
        r == (a@ == b@),
{
    let n = a.unicode_len();
    if n != b.unicode_len() {
        return false;
    }
    let mut i: usize = 0;
    while i < n
        invariant
            n == a@.len(),
            n == b@.len(),
            i <= n,
            forall|j: int| 0 <= j < i ==> a@[j] == b@[j],
        decreases n - i,
    {
        if a.get_char(i) != b.get_char(i) {
            return false;
        }
        i = i + 1;
    }
    assert(a@ =~= b@);
    true
}

} // verus!
