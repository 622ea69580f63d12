//! Translating controller pin state into a physical-key bitmap.
//!
//! Full-size keyboards wire their switches in a matrix: one side of the
//! matrix is driven, the other read, one line at a time. The scan walks the
//! output pins, raises each, waits out the debounce interval, and samples
//! every input pin into the next slot of the key bitmap.

use vstd::prelude::*;

use crate::controller::{MAX_PINS, PinSet};
use crate::physical_layout::MAX_KEYS;
use crate::timer::{Duration, Timer};

verus! {

/// How long a raised output line settles before the inputs are sampled, in
/// microseconds.
pub const DEBOUNCE_MICROS: u64 = 10;

/// `n` is the number of configured pins in a pin table: every slot before
/// `n` names a pin and slot `n` is the terminator.
pub open spec fn is_pin_count(pins: Seq<Option<usize>>, n: int) -> bool {
    &&& 0 <= n < pins.len()
    &&& pins[n] is None
    &&& forall|j: int| 0 <= j < n ==> (#[trigger] pins[j]) is Some
}

/// The number of configured pins in a terminated pin table.
pub open spec fn pin_count(pins: Seq<Option<usize>>) -> int {
    choose|n: int| is_pin_count(pins, n)
}

/// A pin table has at most one terminator position.
pub proof fn lemma_pin_count_unique(pins: Seq<Option<usize>>, n1: int, n2: int)
    requires
        is_pin_count(pins, n1),
        is_pin_count(pins, n2),
    ensures
        n1 == n2,
{
    if n1 < n2 {
        assert(pins[n1] is Some);
    }
    if n2 < n1 {
        assert(pins[n2] is Some);
    }
}

/// An algorithm that reads the physical keys through a pin set.
pub trait ScanAlgorithm: Sized {
    /// Whether this algorithm's pin configuration is well formed; scanning
    /// with a malformed configuration is a programmer error.
    spec fn scan_config_ok(&self) -> bool;

    /// Configure every pin this algorithm uses for its role.
    fn configure_pins<PS: PinSet>(&self, pins: &mut PS)
        requires
            self.scan_config_ok(),
    ;

    /// Read the current key bitmap, one entry per representable key index.
    fn scan_pins<PS: PinSet, T: Timer>(&mut self, pins: &mut PS, timer: &T) -> (keys: Vec<bool>)
        requires
            old(self).scan_config_ok(),
        ensures
            keys@.len() == MAX_KEYS,
    ;
}

/// Which side of the matrix is driven.
#[derive(Clone, Copy, Debug, PartialEq, Eq, Structural)]
pub enum MatrixScanDirection {
    /// Rows are outputs and columns are inputs.
    OutputRows,
    /// Columns are outputs and rows are inputs.
    OutputCols,
}

/// A matrix scan over row and column pin tables, each terminated by an empty
/// slot.
pub struct MatrixScanAlgorithm {
    pub direction: MatrixScanDirection,
    pub row_pins: [Option<usize>; MAX_PINS],
    pub col_pins: [Option<usize>; MAX_PINS],
}

impl MatrixScanAlgorithm {
    /// The pin table whose pins are read.
    fn get_input_pin_collection(&self) -> (r: &[Option<usize>; MAX_PINS])
        ensures
            *r == self.spec_input_pins(),
    {
        match self.direction {
            MatrixScanDirection::OutputRows => &self.col_pins,
            MatrixScanDirection::OutputCols => &self.row_pins,
        }
    }

    /// The pin table whose pins are driven.
    fn get_output_pin_collection(&self) -> (r: &[Option<usize>; MAX_PINS])
        ensures
            *r == self.spec_output_pins(),
    {
        match self.direction {
            MatrixScanDirection::OutputRows => &self.row_pins,
            MatrixScanDirection::OutputCols => &self.col_pins,
        }
    }

    /// The pin table whose pins are read.
    pub open spec fn spec_input_pins(self) -> [Option<usize>; MAX_PINS] {
        match self.direction {
            MatrixScanDirection::OutputRows => self.col_pins,
            MatrixScanDirection::OutputCols => self.row_pins,
        }
    }

    /// The pin table whose pins are driven.
    pub open spec fn spec_output_pins(self) -> [Option<usize>; MAX_PINS] {
        match self.direction {
            MatrixScanDirection::OutputRows => self.row_pins,
            MatrixScanDirection::OutputCols => self.col_pins,
        }
    }
}

impl ScanAlgorithm for MatrixScanAlgorithm {
    /// Both pin tables are terminated and the matrix fits the key bitmap.
    open spec fn scan_config_ok(&self) -> bool {
        &&& exists|n: int| is_pin_count(self.row_pins@, n)
        &&& exists|n: int| is_pin_count(self.col_pins@, n)
        &&& pin_count(self.spec_output_pins()@) * pin_count(self.spec_input_pins()@) <= MAX_KEYS
    }

    fn configure_pins<PS: PinSet>(&self, pins: &mut PS) {
        let ghost rown = choose|n: int| is_pin_count(self.row_pins@, n);
        let ghost coln = choose|n: int| is_pin_count(self.col_pins@, n);
        match self.direction {
            MatrixScanDirection::OutputRows => {
                let mut i: usize = 0;
                while i < MAX_PINS && self.row_pins[i].is_some()
                    invariant
                        i <= MAX_PINS,
                        is_pin_count(self.row_pins@, rown),
                        forall|j: int| 0 <= j < i ==> (#[trigger] self.row_pins@[j]) is Some,
                    decreases MAX_PINS - i,
                {
                    proof {
                        if rown < i {
                            assert(self.row_pins@[rown] is Some);
                        }
                    }
                    match self.row_pins[i] {
                        Some(row) => pins.set_pin_output(row),
                        None => {},
                    }
                    i += 1;
                }
                let mut i: usize = 0;
                while i < MAX_PINS && self.col_pins[i].is_some()
                    invariant
                        i <= MAX_PINS,
                        is_pin_count(self.col_pins@, coln),
                        forall|j: int| 0 <= j < i ==> (#[trigger] self.col_pins@[j]) is Some,
                    decreases MAX_PINS - i,
                {
                    match self.col_pins[i] {
                        Some(col) => pins.set_pin_input(col),
                        None => {},
                    }
                    i += 1;
                }
            },
            MatrixScanDirection::OutputCols => {
                let mut i: usize = 0;
                while i < MAX_PINS && self.col_pins[i].is_some()
                    invariant
                        i <= MAX_PINS,
                        is_pin_count(self.col_pins@, coln),
                        forall|j: int| 0 <= j < i ==> (#[trigger] self.col_pins@[j]) is Some,
                    decreases MAX_PINS - i,
                {
                    match self.col_pins[i] {
                        Some(col) => pins.set_pin_output(col),
                        None => {},
                    }
                    i += 1;
                }
                let mut i: usize = 0;
                while i < MAX_PINS && self.row_pins[i].is_some()
                    invariant
                        i <= MAX_PINS,
                        is_pin_count(self.row_pins@, rown),
                        forall|j: int| 0 <= j < i ==> (#[trigger] self.row_pins@[j]) is Some,
                    decreases MAX_PINS - i,
                {
                    match self.row_pins[i] {
                        Some(row) => pins.set_pin_input(row),
                        None => {},
                    }
                    i += 1;
                }
            },
        }
    }

    fn scan_pins<PS: PinSet, T: Timer>(&mut self, pins: &mut PS, timer: &T) -> (keys: Vec<bool>)
        ensures
            forall|j: int|
                pin_count(old(self).spec_output_pins()@) * pin_count(
                    old(self).spec_input_pins()@,
                ) <= j < MAX_KEYS ==> !(#[trigger] keys@[j]),
    {
        let ghost outn = choose|n: int| is_pin_count(self.spec_output_pins()@, n);
        let ghost inn = choose|n: int| is_pin_count(self.spec_input_pins()@, n);
        proof {
            let rn = choose|n: int| is_pin_count(self.row_pins@, n);
            let cn = choose|n: int| is_pin_count(self.col_pins@, n);
            match self.direction {
                MatrixScanDirection::OutputRows => {
                    lemma_pin_count_unique(self.row_pins@, outn, rn);
                    lemma_pin_count_unique(self.col_pins@, inn, cn);
                },
                MatrixScanDirection::OutputCols => {
                    lemma_pin_count_unique(self.col_pins@, outn, cn);
                    lemma_pin_count_unique(self.row_pins@, inn, rn);
                },
            }
            lemma_pin_count_unique(self.spec_output_pins()@, outn, pin_count(
                self.spec_output_pins()@,
            ));
            lemma_pin_count_unique(self.spec_input_pins()@, inn, pin_count(
                self.spec_input_pins()@,
            ));
            assert(outn * inn <= MAX_KEYS);
        }

        let mut keys: Vec<bool> = Vec::new();
        let mut f: usize = 0;
        while f < MAX_KEYS
            invariant
                f <= MAX_KEYS,
                keys@.len() == f,
                forall|j: int| 0 <= j < f ==> !(#[trigger] keys@[j]),
            decreases MAX_KEYS - f,
        {
            keys.push(false);
            f += 1;
        }

        // Drive every output line low first.
        let mut i: usize = 0;
        while i < MAX_PINS && self.get_output_pin_collection()[i].is_some()
            invariant
                i <= MAX_PINS,
                is_pin_count(self.spec_output_pins()@, outn),
                *self == *old(self),
                forall|j: int| 0 <= j < i ==> (#[trigger] self.spec_output_pins()@[j]) is Some,
            decreases MAX_PINS - i,
        {
            match self.get_output_pin_collection()[i] {
                Some(output) => pins.set_pin_state(output, false),
                None => {},
            }
            i += 1;
        }

        // Raise one output line at a time and sample every input line.
        let mut key: usize = 0;
        let mut i: usize = 0;
        while i < MAX_PINS && self.get_output_pin_collection()[i].is_some()
            invariant
                i <= MAX_PINS,
                is_pin_count(self.spec_output_pins()@, outn),
                is_pin_count(self.spec_input_pins()@, inn),
                outn * inn <= MAX_KEYS,
                *self == *old(self),
                keys@.len() == MAX_KEYS,
                forall|j: int| 0 <= j < i ==> (#[trigger] self.spec_output_pins()@[j]) is Some,
                i <= outn,
                key == i * inn,
                forall|j: int| key <= j < MAX_KEYS ==> !(#[trigger] keys@[j]),
            decreases MAX_PINS - i,
        {
            proof {
                if outn < i {
                    assert(self.spec_output_pins()@[outn] is Some);
                }
                assert(i < outn || i == outn);
                if i == outn {
                    assert(self.spec_output_pins()@[i as int] is None);
                }
            }
            match self.get_output_pin_collection()[i] {
                Some(output) => {
                    pins.set_pin_state(output, true);

                    // Wait for the line to settle before sampling.
                    timer.wait(Duration::new(DEBOUNCE_MICROS));

                    let mut j: usize = 0;
                    while j < MAX_PINS && self.get_input_pin_collection()[j].is_some()
                        invariant
                            j <= MAX_PINS,
                            is_pin_count(self.spec_output_pins()@, outn),
                            is_pin_count(self.spec_input_pins()@, inn),
                            outn * inn <= MAX_KEYS,
                            *self == *old(self),
                            keys@.len() == MAX_KEYS,
                            forall|jj: int|
                                0 <= jj < j ==> (#[trigger] self.spec_input_pins()@[jj]) is Some,
                            j <= inn,
                            i < outn,
                            key == i * inn + j,
                            forall|jj: int| key <= jj < MAX_KEYS ==> !(#[trigger] keys@[jj]),
                        decreases MAX_PINS - j,
                    {
                        proof {
                            if inn < j {
                                assert(self.spec_input_pins()@[inn] is Some);
                            }
                            assert(j < inn || j == inn);
                            if j == inn {
                                assert(self.spec_input_pins()@[j as int] is None);
                            }
                            assert(i * inn + j < outn * inn) by (nonlinear_arith)
                                requires
                                    i < outn,
                                    j < inn,
                                    0 <= i,
                                    0 <= j,
                            ;
                        }
                        match self.get_input_pin_collection()[j] {
                            Some(input) => {
                                keys[key] = pins.get_pin_state(input);
                                key += 1;
                            },
                            None => {},
                        }
                        j += 1;
                    }
                    proof {
                        assert(i * inn + inn == (i + 1) * inn) by (nonlinear_arith);
                    }
                },
                None => {},
            }
            i += 1;
        }
        proof {
            // The walk stopped at the output terminator, so exactly
            // `outn * inn` slots were written.
            if i < MAX_PINS {
                assert(i == outn || i < outn);
                if i < outn {
                    assert(self.spec_output_pins()@[i as int] is Some);
                }
            } else {
                assert(self.spec_output_pins()@[outn] is Some);
            }
            assert(key == outn * inn);
        }

        keys
    }
}

} // verus!
