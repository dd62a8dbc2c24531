pub mod alpha_beta;

use vstd::prelude::*;

verus! {
} // verus!
