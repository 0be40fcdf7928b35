use vstd::prelude::*;
use vstd::string::*;

verus! {

/// Which sequences a download holds.
#[derive(Debug, Clone, Copy, PartialEq, Eq)]
pub enum SequenceType {
    Protein,
    Cds,
}

/// Where a download comes from.
#[derive(Debug, Clone, Copy, PartialEq, Eq)]
pub enum Source {
    URL,
    OneKp,
    Phytozome,
}

pub open spec fn sequence_type_text(t: SequenceType) -> Seq<char> {
    match t {
        SequenceType::Protein => "protein"@,
        SequenceType::Cds => "cds"@,
    }
}

pub open spec fn source_text(s: Source) -> Seq<char> {
    match s {
        Source::URL => "url"@,
        Source::OneKp => "onekp"@,
        Source::Phytozome => "phytozome"@,
    }
}

impl SequenceType {
    /// The directory name of this kind of sequence.
    pub fn to_string(&self) -> (r: String)
        ensures
            r@ == sequence_type_text(*self),
    {
        match self {
            SequenceType::Protein => String::from_str("protein"),
            SequenceType::Cds => String::from_str("cds"),
        }
    }
}

impl Source {
    /// The directory name of this source.
    pub fn to_string(&self) -> (r: String)
        ensures
            r@ == source_text(*self),
    {
        match self {
            Source::URL => String::from_str("url"),
            Source::OneKp => String::from_str("onekp"),
            Source::Phytozome => String::from_str("phytozome"),
        }
    }
}

/// One entry of a lock file: a sequence download and where it came from.
#[derive(Debug, Clone)]
pub enum LockObject {
    URL {
        source: Source,
        taxonomy_id: u32,
        name: String,
        url: String,
        gzip: bool,
        version: Option<String>,
    },
    OneKp { source: Source, taxonomy_id: u32, name: String, onekp_id: String },
    Phytozome { source: Source, taxonomy_id: u32, name: String, phytozome_version: String },
}

/// The text of each path component.
pub open spec fn components(v: Seq<String>) -> Seq<Seq<char>> {
    v.map_values(|s: String| s@)
}

/// The components that an entry adds below the root: the sequence type, the
/// entry's name, its source, then its own identifier or version, if any.
pub open spec fn path_tail(o: LockObject, t: SequenceType) -> Seq<Seq<char>> {
    match o {
        LockObject::OneKp { source, name, onekp_id, .. } => seq![
            sequence_type_text(t),
            name@,
            source_text(source),
            onekp_id@,
        ],
        LockObject::Phytozome { source, name, phytozome_version, .. } => seq![
            sequence_type_text(t),
            name@,
            source_text(source),
            phytozome_version@,
        ],
        LockObject::URL { source, name, version, .. } => match version {
            Some(v) => seq![sequence_type_text(t), name@, source_text(source), v@],
            None => seq![sequence_type_text(t), name@, source_text(source)],
        },
    }
}

fn push_component(path: &mut Vec<String>, c: String)
    ensures
        components(final(path)@) == components(old(path)@).push(c@),
{
    let ghost before = path@;
    path.push(c);
    proof {
        assert(components(path@) =~= components(before).push(c@));
    }
}

impl LockObject {
    /// The entry's download URL; nothing is derived from it yet.
    pub fn to_url(&self) {
    }

    /// Where the entry's file is kept below `root`, as path components.
    pub fn to_path(&self, root: Vec<String>, sequence_type: SequenceType) -> (r: Vec<String>)
        ensures
            components(r@) == components(root@) + path_tail(*self, sequence_type),
    {
        let mut root = root;
        let ghost r0 = components(root@);
        push_component(&mut root, sequence_type.to_string());
        match self {
            LockObject::OneKp { source, name, onekp_id, .. } => {
                push_component(&mut root, name.clone());
                push_component(&mut root, source.to_string());
                push_component(&mut root, onekp_id.clone());
            },
            LockObject::Phytozome { source, name, phytozome_version, .. } => {
                push_component(&mut root, name.clone());
                push_component(&mut root, source.to_string());
                push_component(&mut root, phytozome_version.clone());
            },
            LockObject::URL { source, name, version, .. } => {
                push_component(&mut root, name.clone());
                push_component(&mut root, source.to_string());
                match version {
                    Some(v) => push_component(&mut root, v.clone()),
                    None => {},
                }
            },
        }
        proof {
            assert(components(root@) =~= r0 + path_tail(*self, sequence_type));
        }
        root
    }
}

} // verus!
