use vstd::prelude::*;

use crate::text::{joined_with, split_commas, texts};

verus! {

/// What a scan is run with: the categories, the globs of the files to scan,
/// and where the checklist goes (`None`: standard output).
pub struct CliConfig {
    pub patterns: Vec<String>,
    pub globs: Vec<String>,
    pub out: Option<String>,
}

impl Default for CliConfig {
    /// Category `TODO`, files under `src/`, checklist to standard output.
    fn default() -> (r: CliConfig)
        ensures
            r.patterns@.len() == 1,
            r.patterns@[0]@ == "TODO"@,
            r.globs@.len() == 1,
            r.globs@[0]@ == "src/**/*"@,
            r.out is None,
    {
        CliConfig {
            patterns: vec![String::from_str("TODO")],
            globs: vec![String::from_str("src/**/*")],
            out: None,
        }
    }
}

impl CliConfig {
    /// The categories to look for: those of the comma-separated list given for
    /// this run, else the configured ones.
    pub fn categories(&self, given: Option<String>) -> (r: Vec<String>)
        ensures
            match given {
                Some(g) => {
                    &&& joined_with(texts(r@), ',') == g@
                    &&& r@.len() >= 1
                    &&& forall|i: int| 0 <= i < r@.len() ==> !(#[trigger] r@[i]@).contains(',')
                },
                None => r@ == self.patterns@,
            },
    {
        match given {
            Some(g) => split_commas(g.as_str()),
            None => {
                let mut r: Vec<String> = Vec::new();
                let mut i: usize = 0;
                while i < self.patterns.len()
                    invariant
                        i <= self.patterns@.len(),
                        r@ == self.patterns@.take(i as int),
                    decreases self.patterns@.len() - i,
                {
                    r.push(self.patterns[i].clone());
                    i = i + 1;
                    assert(r@ =~= self.patterns@.take(i as int));
                }
                assert(r@ =~= self.patterns@);
                r
            },
        }
    }

    /// The globs to scan: the path given for this run, else the configured globs.
    pub fn targets(&self, given: Option<String>) -> (r: Vec<String>)
        ensures
            match given {
                Some(p) => r@.len() == 1 && r@[0] == p,
                None => r@ == self.globs@,
            },
    {
        match given {
            Some(p) => vec![p],
            None => {
                let mut r: Vec<String> = Vec::new();
                let mut i: usize = 0;
                while i < self.globs.len()
                    invariant
                        i <= self.globs@.len(),
                        r@ == self.globs@.take(i as int),
                    decreases self.globs@.len() - i,
                {
                    r.push(self.globs[i].clone());
                    i = i + 1;
                    assert(r@ =~= self.globs@.take(i as int));
                }
                assert(r@ =~= self.globs@);
                r
            },
        }
    }

    /// Where the checklist goes: the file given for this run, else the
    /// configured one; `None` stands for standard output.
    pub fn output_target(&self, given: Option<String>) -> (r: Option<String>)
        ensures
            match given {
                Some(p) => r == Some(p),
                None => r == self.out,
            },
    {
        match given {
            Some(p) => Some(p),
            None => match &self.out {
                Some(p) => Some(p.clone()),
                None => None,
            },
        }
    }
}

} // verus!
