//! Parser for the raw compiler dump, handed in as the lines of its files:
//! gate lines, input-pin lines, and the optional constants line.

use vstd::prelude::*;

use crate::cbmc::error::Error;
use crate::cbmc::types::Constant;
use crate::cbmc::types::Gate;
use crate::cbmc::types::ID;
use crate::cbmc::types::IOPin;
use crate::cbmc::types::views;
use crate::cbmc::types::pin_views;

verus! {

/// The raw dump of one compiler run: its gate-list lines, its input-pin
/// lines, and its constants line where the circuit needs one.
pub struct Parser {
    pub gates: Vec<String>,
    pub inputs: Vec<String>,
    pub constant: Option<String>,
}

impl Parser {
    pub fn new(gates: Vec<String>, inputs: Vec<String>, constant: Option<String>) -> (p: Parser)
        ensures
            p.gates@ == gates@,
            p.inputs@ == inputs@,
            p.constant == constant,
    {
        Parser { gates, inputs, constant }
    }

    /// Parses the list of gate lines; each gate takes its 1-based line
    /// number as identity. Fails on the first malformed line, returning
    /// no partial list.
    pub fn parse_gates(&self) -> (r: Result<Vec<Gate>, Error>)
        ensures
            r is Ok <==> (forall|i: int|
                0 <= i < self.gates@.len() ==> Gate::grammar_ok(#[trigger] self.gates@[i]@)),
            r is Ok ==> r->Ok_0@.len() == self.gates@.len(),
            r is Ok ==> forall|i: int|
                0 <= i < self.gates@.len() ==> (#[trigger] views(r->Ok_0@)[i]).gtype
                    == Gate::gate_of_type(self.gates@[i]@) && views(r->Ok_0@)[i].id == ID::Gate(
                    (i + 1) as u64,
                ) && views(r->Ok_0@)[i].wires =~~= Gate::gate_of_wires(self.gates@[i]@),
            r is Err ==> exists|i: int|
                0 <= i < self.gates@.len() && !Gate::grammar_ok(#[trigger] self.gates@[i]@),
    {
        let mut gates: Vec<Gate> = Vec::new();
        let mut i: usize = 0;
        while i < self.gates.len()
            invariant
                0 <= i <= self.gates@.len(),
                gates@.len() == i,
                forall|t: int| 0 <= t < i ==> Gate::grammar_ok(#[trigger] self.gates@[t]@),
                forall|t: int|
                    0 <= t < i ==> (#[trigger] views(gates@)[t]).gtype == Gate::gate_of_type(
                        self.gates@[t]@,
                    ) && views(gates@)[t].id == ID::Gate((t + 1) as u64) && views(gates@)[t].wires
                        =~~= Gate::gate_of_wires(self.gates@[t]@),
            decreases self.gates@.len() - i,
        {
            match Gate::parse(self.gates[i].as_str(), (i + 1) as u64) {
                Ok(g) => {
                    let ghost prev = views(gates@);
                    let ghost gv = g@;
                    gates.push(g);
                    proof {
                        assert forall|t: int| 0 <= t < i + 1 implies #[trigger] views(gates@)[t]
                            == if t < i {
                            prev[t]
                        } else {
                            gv
                        } by {
                            assert(views(gates@)[t] == gates@[t]@);
                        }
                    }
                },
                Err(e) => {
                    return Err(e);
                },
            }
            i = i + 1;
        }
        Ok(gates)
    }

    /// Parses the input-pin list. Fails on the first malformed line,
    /// returning no partial list.
    pub fn parse_inputs(&self) -> (r: Result<Vec<IOPin>, Error>)
        ensures
            r is Ok <==> (forall|i: int|
                0 <= i < self.inputs@.len() ==> IOPin::grammar_ok(#[trigger] self.inputs@[i]@)),
            r is Ok ==> r->Ok_0@.len() == self.inputs@.len(),
            r is Ok ==> forall|i: int|
                0 <= i < self.inputs@.len() ==> (#[trigger] pin_views(r->Ok_0@)[i]).id
                    == IOPin::pin_of_id(self.inputs@[i]@) && pin_views(r->Ok_0@)[i].wires
                    =~~= IOPin::pin_of_wires(self.inputs@[i]@),
            r is Err ==> exists|i: int|
                0 <= i < self.inputs@.len() && !IOPin::grammar_ok(#[trigger] self.inputs@[i]@),
    {
        let mut pins: Vec<IOPin> = Vec::new();
        let mut i: usize = 0;
        while i < self.inputs.len()
            invariant
                0 <= i <= self.inputs@.len(),
                pins@.len() == i,
                forall|t: int| 0 <= t < i ==> IOPin::grammar_ok(#[trigger] self.inputs@[t]@),
                forall|t: int|
                    0 <= t < i ==> (#[trigger] pin_views(pins@)[t]).id == IOPin::pin_of_id(
                        self.inputs@[t]@,
                    ) && pin_views(pins@)[t].wires =~~= IOPin::pin_of_wires(self.inputs@[t]@),
            decreases self.inputs@.len() - i,
        {
            match IOPin::parse_input(self.inputs[i].as_str(), (i + 1) as u64) {
                Ok(p) => {
                    let ghost prev = pin_views(pins@);
                    let ghost pv = p@;
                    pins.push(p);
                    proof {
                        assert forall|t: int| 0 <= t < i + 1 implies #[trigger] pin_views(pins@)[t]
                            == if t < i {
                            prev[t]
                        } else {
                            pv
                        } by {
                            assert(pin_views(pins@)[t] == pins@[t]@);
                        }
                    }
                },
                Err(e) => {
                    return Err(e);
                },
            }
            i = i + 1;
        }
        Ok(pins)
    }

    /// Parses the optional constants line: absence means the circuit needs
    /// no constant-1 signal.
    pub fn parse_constant(&self) -> (r: Result<Option<Constant>, Error>)
        ensures
            self.constant is None ==> r == Ok::<Option<Constant>, Error>(None),
            self.constant is Some ==> ((r is Ok <==> Constant::grammar_ok(self.constant->0@)) && (
            r is Ok ==> r->Ok_0 is Some && r->Ok_0->0.wires@ =~~= Constant::constant_of_wires(
                self.constant->0@,
            ))),
    {
        match &self.constant {
            None => Ok(None),
            Some(line) => {
                match Constant::parse(line.as_str()) {
                    Ok(c) => Ok(Some(c)),
                    Err(e) => Err(e),
                }
            },
        }
    }
}

} // verus!
