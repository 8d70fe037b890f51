use vstd::prelude::*;

verus! {

/// Where an event's data comes from.
#[derive(Clone, Copy, Debug, PartialEq, Eq, Structural)]
pub enum Source {
    Local,
    External,
}

/// The text that stands for each source in storage.
pub open spec fn source_text(s: Source) -> Seq<char> {
    match s {
        Source::Local => "local"@,
        Source::External => "external"@,
    }
}

impl Source {
    /// Reads a source from its stored text; only `"local"` and `"external"` are sources.
    pub fn from_str(input: &str) -> (r: Source)
        requires
            input@ == "local"@ || input@ == "external"@,
        ensures
            source_text(r) == input@,
    {
        let owned = input.to_owned();
        if owned == "local".to_owned() {
            Source::Local
        } else {
            proof {
                reveal_strlit("local");
                reveal_strlit("external");
                assert(owned@ != "local"@);
            }
            Source::External
        }
    }
}

} // verus!
