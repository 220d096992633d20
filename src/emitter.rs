use vstd::prelude::*;
use vstd::string::*;

verus! {

/// Generated code in two streams: a header (the preamble and the declarations)
/// and a body. The output is always the header followed by the body.
#[derive(Debug)]
pub struct Emitter {
    pub output_filename: String,
    pub full_path: String,
    pub header: String,
    pub code: String,
}

impl Emitter {
    /// Both streams unchanged.
    pub open spec fn same_streams(&self, other: &Emitter) -> bool {
        &&& self.header@ == other.header@
        &&& self.code@ == other.code@
    }

    /// An emitter with empty streams that will write to `output_filename`.
    pub fn new(output_filename: String) -> (r: Emitter)
        ensures
            r.output_filename == output_filename,
            r.full_path@ == Seq::<char>::empty(),
            r.header@ == Seq::<char>::empty(),
            r.code@ == Seq::<char>::empty(),
    {
        Emitter { output_filename, full_path: String::new(), header: String::new(), code: String::new() }
    }

    /// Appends `code` to the body.
    pub fn emit(&mut self, code: String)
        ensures
            final(self).code@ == old(self).code@ + code@,
            final(self).header@ == old(self).header@,
            final(self).output_filename == old(self).output_filename,
    {
        self.code.append(code.as_str());
    }

    /// Appends `code` and a newline to the body.
    pub fn emit_line(&mut self, code: String)
        ensures
            final(self).code@ == old(self).code@ + code@.push('\n'),
            final(self).header@ == old(self).header@,
            final(self).output_filename == old(self).output_filename,
    {
        self.code.append(code.as_str());
        self.code.append("\n");
        proof {
            reveal_strlit("\n");
        }
        assert(self.code@ =~= old(self).code@ + code@.push('\n'));
    }

    /// Appends `code` and a newline to the header.
    pub fn header_line(&mut self, code: String)
        ensures
            final(self).header@ == old(self).header@ + code@.push('\n'),
            final(self).code@ == old(self).code@,
            final(self).output_filename == old(self).output_filename,
    {
        self.header.append(code.as_str());
        self.header.append("\n");
        proof {
            reveal_strlit("\n");
        }
        assert(self.header@ =~= old(self).header@ + code@.push('\n'));
    }

    /// The whole output: the header, then the body.
    pub fn materialize(&self) -> (r: String)
        ensures
            r@ == self.header@ + self.code@,
    {
        let mut r = self.header.clone();
        r.append(self.code.as_str());
        r
    }
}

} // verus!
