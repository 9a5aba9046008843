//! A minimal constraint-building environment: circuit values carry their
//! allocation mode and witness, and every gadget records exactly the
//! allocations and rank-one constraints it emits.

use vstd::prelude::*;

use crate::field::Fp;

verus! {

/// The allocation mode of a circuit value.
#[derive(Clone, Copy, Debug, PartialEq, Eq, Structural)]
pub enum Mode {
    /// A value fixed at circuit-synthesis time.
    Constant,
    /// A value exposed as a public input.
    Public,
    /// A private witness value.
    Private,
}

impl Mode {
    /// Whether this is the constant mode.
    pub open spec fn spec_is_constant(self) -> bool {
        self is Constant
    }

    /// Whether this is the constant mode.
    pub fn is_constant(&self) -> (r: bool)
        ensures
            r == self.spec_is_constant(),
    {
        match self {
            Mode::Constant => true,
            _ => false,
        }
    }
}

/// A constraint scope: counters for the allocations and constraints
/// recorded in it, and whether every recorded constraint held of its
/// witnesses.
pub struct Circuit {
    label: &'static str,
    num_constants: usize,
    num_public: usize,
    num_private: usize,
    num_constraints: usize,
    satisfied: bool,
}

impl Circuit {
    /// The number of constants allocated in this scope.
    pub closed spec fn spec_constants(self) -> int {
        self.num_constants as int
    }

    /// The number of public inputs allocated in this scope.
    pub closed spec fn spec_public(self) -> int {
        self.num_public as int
    }

    /// The number of private witnesses allocated in this scope.
    pub closed spec fn spec_private(self) -> int {
        self.num_private as int
    }

    /// The number of constraints recorded in this scope.
    pub closed spec fn spec_constraints(self) -> int {
        self.num_constraints as int
    }

    /// Whether every recorded constraint held.
    pub closed spec fn spec_satisfied(self) -> bool {
        self.satisfied
    }

    /// Opens a fresh, empty scope with the given label.
    pub fn scoped(label: &'static str) -> (r: Circuit)
        ensures
            r.spec_constants() == 0,
            r.spec_public() == 0,
            r.spec_private() == 0,
            r.spec_constraints() == 0,
            r.spec_satisfied(),
    {
        Circuit {
            label,
            num_constants: 0,
            num_public: 0,
            num_private: 0,
            num_constraints: 0,
            satisfied: true,
        }
    }

    /// The label this scope was opened with.
    pub fn scope_label(&self) -> &'static str {
        self.label
    }

    pub fn num_constants_in_scope(&self) -> (r: usize)
        ensures
            r == self.spec_constants(),
    {
        self.num_constants
    }

    pub fn num_public_in_scope(&self) -> (r: usize)
        ensures
            r == self.spec_public(),
    {
        self.num_public
    }

    pub fn num_private_in_scope(&self) -> (r: usize)
        ensures
            r == self.spec_private(),
    {
        self.num_private
    }

    pub fn num_constraints_in_scope(&self) -> (r: usize)
        ensures
            r == self.spec_constraints(),
    {
        self.num_constraints
    }

    /// Whether every constraint recorded in this scope held.
    pub fn is_satisfied(&self) -> (r: bool)
        ensures
            r == self.spec_satisfied(),
    {
        self.satisfied
    }

    /// Records one allocation of the given mode.
    fn allocate(&mut self, mode: Mode)
        requires
            old(self).spec_constants() < usize::MAX,
            old(self).spec_public() < usize::MAX,
            old(self).spec_private() < usize::MAX,
        ensures
            final(self).spec_constants() == old(self).spec_constants() + (
            if mode is Constant { 1int } else { 0 }),
            final(self).spec_public() == old(self).spec_public() + (
            if mode is Public { 1int } else { 0 }),
            final(self).spec_private() == old(self).spec_private() + (
            if mode is Private { 1int } else { 0 }),
            final(self).spec_constraints() == old(self).spec_constraints(),
            final(self).spec_satisfied() == old(self).spec_satisfied(),
    {
        match mode {
            Mode::Constant => {
                self.num_constants = self.num_constants + 1;
            },
            Mode::Public => {
                self.num_public = self.num_public + 1;
            },
            Mode::Private => {
                self.num_private = self.num_private + 1;
            },
        }
    }

    /// Records the rank-one constraint `a * b == c` over the witnesses.
    fn enforce(&mut self, a: Fp, b: Fp, c: Fp)
        requires
            old(self).spec_constraints() < usize::MAX,
        ensures
            final(self).spec_constraints() == old(self).spec_constraints() + 1,
            final(self).spec_satisfied() == (old(self).spec_satisfied() && crate::field::mul_mod(
                a@,
                b@,
            ) == c@),
            final(self).spec_constants() == old(self).spec_constants(),
            final(self).spec_public() == old(self).spec_public(),
            final(self).spec_private() == old(self).spec_private(),
    {
        self.num_constraints = self.num_constraints + 1;
        if !a.mul(b).eq_value(c) {
            self.satisfied = false;
        }
    }
}

/// A boolean circuit value.
#[derive(Clone, Copy, Debug, PartialEq, Eq, Structural)]
pub struct Boolean {
    mode: Mode,
    value: bool,
}

/// The field embedding of a boolean witness.
pub open spec fn bit_value(b: bool) -> int {
    if b {
        1int
    } else {
        0int
    }
}

impl Boolean {
    /// The allocation mode.
    pub closed spec fn spec_mode(self) -> Mode {
        self.mode
    }

    /// The witness value.
    pub closed spec fn spec_value(self) -> bool {
        self.value
    }

    /// Allocates a boolean of the given mode; a non-constant allocation
    /// also records its booleanity constraint.
    pub fn new(circuit: &mut Circuit, mode: Mode, value: bool) -> (r: Boolean)
        requires
            old(circuit).spec_constants() < usize::MAX,
            old(circuit).spec_public() < usize::MAX,
            old(circuit).spec_private() < usize::MAX,
            old(circuit).spec_constraints() < usize::MAX,
        ensures
            r.spec_mode() == mode,
            r.spec_value() == value,
            final(circuit).spec_constants() == old(circuit).spec_constants() + (
            if mode is Constant { 1int } else { 0 }),
            final(circuit).spec_public() == old(circuit).spec_public() + (
            if mode is Public { 1int } else { 0 }),
            final(circuit).spec_private() == old(circuit).spec_private() + (
            if mode is Private { 1int } else { 0 }),
            final(circuit).spec_constraints() == old(circuit).spec_constraints() + (
            if mode is Constant { 0int } else { 1 }),
            final(circuit).spec_satisfied() == old(circuit).spec_satisfied(),
    {
        circuit.allocate(mode);
        if !mode.is_constant() {
            // booleanity: v * (v - 1) == 0
            let v = if value {
                Fp::one()
            } else {
                Fp::zero()
            };
            let ghost pre = *circuit;
            circuit.enforce(v, v.sub(Fp::one()), Fp::zero());
            proof {
                crate::field::lemma_mul_mod_one(0);
                assert(crate::field::mul_mod(v@, crate::field::sub_mod(v@, 1)) == 0) by {
                    if value {
                        assert(crate::field::sub_mod(1, 1) == 0);
                        assert(1int * 0 == 0);
                    } else {
                        assert(0int * crate::field::sub_mod(0, 1) == 0);
                    }
                }
            }
        }
        Boolean { mode, value }
    }

    /// Whether this boolean is a constant.
    pub fn is_constant(&self) -> (r: bool)
        ensures
            r == self.spec_mode().spec_is_constant(),
    {
        self.mode.is_constant()
    }

    /// The witness value.
    pub fn eject_value(&self) -> (r: bool)
        ensures
            r == self.spec_value(),
    {
        self.value
    }

    /// The negation: free, flipping the witness without allocations.
    pub fn not(&self) -> (r: Boolean)
        ensures
            r.spec_value() == !self.spec_value(),
            r.spec_mode() == self.spec_mode(),
    {
        Boolean { mode: self.mode, value: !self.value }
    }

    /// Returns `(self OR other)`: a constant operand resolves the result
    /// directly; two variables allocate the result and enforce
    /// `(1 - self) * (1 - other) == (1 - output)`.
    pub fn or(&self, other: &Boolean, circuit: &mut Circuit) -> (r: Boolean)
        requires
            old(circuit).spec_constants() < usize::MAX,
            old(circuit).spec_public() < usize::MAX,
            old(circuit).spec_private() < usize::MAX,
            old(circuit).spec_constraints() + 2 <= usize::MAX,
        ensures
            r.spec_value() == (self.spec_value() || other.spec_value()),
            (self.spec_mode() is Constant || other.spec_mode() is Constant)
                ==> counters_unchanged(*old(circuit), *final(circuit)),
            !(self.spec_mode() is Constant || other.spec_mode() is Constant) ==> gadget_counts(
                *old(circuit),
                *final(circuit),
            ),
            final(circuit).spec_satisfied() == old(circuit).spec_satisfied(),
    {
        if self.is_constant() {
            if self.eject_value() {
                *self
            } else {
                *other
            }
        } else if other.is_constant() {
            if other.eject_value() {
                *other
            } else {
                *self
            }
        } else {
            let value = self.eject_value() || other.eject_value();
            let output = Boolean::new(circuit, Mode::Private, value);
            let one = Fp::one();
            let a = one.sub(bool_to_fp(self.eject_value()));
            let b = one.sub(bool_to_fp(other.eject_value()));
            let c = one.sub(bool_to_fp(value));
            let ghost pre = *circuit;
            circuit.enforce(a, b, c);
            proof {
                lemma_or_constraint_holds(self.spec_value(), other.spec_value());
            }
            output
        }
    }

    /// Returns `(self AND other)`: a constant operand resolves the
    /// result directly; two variables allocate the result and enforce
    /// `self * other == output`.
    pub fn and(&self, other: &Boolean, circuit: &mut Circuit) -> (r: Boolean)
        requires
            old(circuit).spec_constants() < usize::MAX,
            old(circuit).spec_public() < usize::MAX,
            old(circuit).spec_private() < usize::MAX,
            old(circuit).spec_constraints() + 2 <= usize::MAX,
        ensures
            r.spec_value() == (self.spec_value() && other.spec_value()),
            (self.spec_mode() is Constant || other.spec_mode() is Constant)
                ==> counters_unchanged(*old(circuit), *final(circuit)),
            !(self.spec_mode() is Constant || other.spec_mode() is Constant) ==> gadget_counts(
                *old(circuit),
                *final(circuit),
            ),
            final(circuit).spec_satisfied() == old(circuit).spec_satisfied(),
    {
        if self.is_constant() {
            if self.eject_value() {
                *other
            } else {
                *self
            }
        } else if other.is_constant() {
            if other.eject_value() {
                *self
            } else {
                *other
            }
        } else {
            let value = self.eject_value() && other.eject_value();
            let output = Boolean::new(circuit, Mode::Private, value);
            let a = bool_to_fp(self.eject_value());
            let b = bool_to_fp(other.eject_value());
            let c = bool_to_fp(value);
            circuit.enforce(a, b, c);
            proof {
                lemma_and_constraint_holds(self.spec_value(), other.spec_value());
            }
            output
        }
    }

    /// Returns `first` if `condition` is `true`, otherwise `second`.
    pub fn ternary(
        condition: &Boolean,
        first: &Boolean,
        second: &Boolean,
        circuit: &mut Circuit,
    ) -> (r: Boolean)
        requires
            old(circuit).spec_constants() < usize::MAX,
            old(circuit).spec_public() < usize::MAX,
            old(circuit).spec_private() < usize::MAX,
            old(circuit).spec_constraints() + 2 <= usize::MAX,
        ensures
            r.spec_value() == (if condition.spec_value() {
                first.spec_value()
            } else {
                second.spec_value()
            }),
            condition.spec_mode() is Constant ==> counters_unchanged(
                *old(circuit),
                *final(circuit),
            ),
            !(condition.spec_mode() is Constant) ==> (if both_constant_modes(
                first.spec_mode(),
                second.spec_mode(),
            ) {
                counters_unchanged(*old(circuit), *final(circuit))
            } else {
                gadget_counts(*old(circuit), *final(circuit))
            }),
            final(circuit).spec_satisfied() == old(circuit).spec_satisfied(),
    {
        if condition.is_constant() {
            if condition.eject_value() {
                *first
            } else {
                *second
            }
        } else if first.is_constant() {
            if first.eject_value() {
                condition.or(second, circuit)
            } else {
                condition.not().and(second, circuit)
            }
        } else if second.is_constant() {
            if second.eject_value() {
                condition.not().or(first, circuit)
            } else {
                condition.and(first, circuit)
            }
        } else {
            let value = if condition.eject_value() {
                first.eject_value()
            } else {
                second.eject_value()
            };
            let witness = Boolean::new(circuit, Mode::Private, value);
            // condition * (first - second) == witness - second
            let a = bool_to_fp(condition.eject_value());
            let b = bool_to_fp(first.eject_value()).sub(bool_to_fp(second.eject_value()));
            let c = bool_to_fp(value).sub(bool_to_fp(second.eject_value()));
            circuit.enforce(a, b, c);
            proof {
                lemma_ternary_constraint_holds(
                    condition.spec_value(),
                    first.spec_value(),
                    second.spec_value(),
                );
            }
            witness
        }
    }
}

/// A base-field circuit value.
#[derive(Clone, Copy, Debug, PartialEq, Eq, Structural)]
pub struct BaseField {
    mode: Mode,
    value: Fp,
}

impl BaseField {
    /// The allocation mode.
    pub closed spec fn spec_mode(self) -> Mode {
        self.mode
    }

    /// The witness value.
    pub closed spec fn spec_value(self) -> Fp {
        self.value
    }

    /// Allocates a field element of the given mode.
    pub fn new(circuit: &mut Circuit, mode: Mode, value: Fp) -> (r: BaseField)
        requires
            old(circuit).spec_constants() < usize::MAX,
            old(circuit).spec_public() < usize::MAX,
            old(circuit).spec_private() < usize::MAX,
        ensures
            r.spec_mode() == mode,
            r.spec_value() == value,
            final(circuit).spec_constants() == old(circuit).spec_constants() + (
            if mode is Constant { 1int } else { 0 }),
            final(circuit).spec_public() == old(circuit).spec_public() + (
            if mode is Public { 1int } else { 0 }),
            final(circuit).spec_private() == old(circuit).spec_private() + (
            if mode is Private { 1int } else { 0 }),
            final(circuit).spec_constraints() == old(circuit).spec_constraints(),
            final(circuit).spec_satisfied() == old(circuit).spec_satisfied(),
    {
        circuit.allocate(mode);
        BaseField { mode, value }
    }

    /// Whether this element is a constant.
    pub fn is_constant(&self) -> (r: bool)
        ensures
            r == self.spec_mode().spec_is_constant(),
    {
        self.mode.is_constant()
    }

    /// The witness value.
    pub fn eject_value(&self) -> (r: Fp)
        ensures
            r == self.spec_value(),
    {
        self.value
    }

    /// Field addition: a linear combination, free of allocations and
    /// constraints.
    pub fn add(&self, other: &BaseField) -> (r: BaseField)
        ensures
            r.spec_value()@ == crate::field::add_mod(self.spec_value()@, other.spec_value()@),
            r.spec_mode() is Constant <==> both_constant_modes(
                self.spec_mode(),
                other.spec_mode(),
            ),
    {
        let mode = if self.is_constant() && other.is_constant() {
            Mode::Constant
        } else {
            Mode::Private
        };
        BaseField { mode, value: self.value.add(other.value) }
    }

    /// Field squaring: folded for constants; otherwise the product is
    /// allocated privately and enforced by one constraint.
    pub fn square(&self, circuit: &mut Circuit) -> (r: BaseField)
        requires
            old(circuit).spec_constants() < usize::MAX,
            old(circuit).spec_public() < usize::MAX,
            old(circuit).spec_private() < usize::MAX,
            old(circuit).spec_constraints() < usize::MAX,
        ensures
            r.spec_value()@ == crate::field::mul_mod(self.spec_value()@, self.spec_value()@),
            self.spec_mode() is Constant ==> counters_unchanged(*old(circuit), *final(circuit)),
            !(self.spec_mode() is Constant) ==> {
                &&& final(circuit).spec_private() == old(circuit).spec_private() + 1
                &&& final(circuit).spec_constraints() == old(circuit).spec_constraints() + 1
                &&& final(circuit).spec_constants() == old(circuit).spec_constants()
                &&& final(circuit).spec_public() == old(circuit).spec_public()
            },
            final(circuit).spec_satisfied() == old(circuit).spec_satisfied(),
    {
        let value = self.value.mul(self.value);
        if self.is_constant() {
            BaseField { mode: Mode::Constant, value }
        } else {
            circuit.allocate(Mode::Private);
            circuit.enforce(self.value, self.value, value);
            BaseField { mode: Mode::Private, value }
        }
    }

    /// The multiplicative inverse, via the field's inverse map; the
    /// non-constant case allocates the result and enforces
    /// `self * inverse == 1`, which the satisfiability flag reflects.
    pub fn inv(&self, circuit: &mut Circuit) -> (r: BaseField)
        requires
            old(circuit).spec_constants() < usize::MAX,
            old(circuit).spec_public() < usize::MAX,
            old(circuit).spec_private() < usize::MAX,
            old(circuit).spec_constraints() < usize::MAX,
        ensures
            r.spec_value()@ == crate::field::inv_mod(self.spec_value()@),
            self.spec_mode() is Constant ==> {
                &&& final(circuit).spec_constants() == old(circuit).spec_constants() + 1
                &&& final(circuit).spec_public() == old(circuit).spec_public()
                &&& final(circuit).spec_private() == old(circuit).spec_private()
                &&& final(circuit).spec_constraints() == old(circuit).spec_constraints()
                &&& final(circuit).spec_satisfied() == old(circuit).spec_satisfied()
            },
            !(self.spec_mode() is Constant) ==> {
                &&& final(circuit).spec_constants() == old(circuit).spec_constants()
                &&& final(circuit).spec_public() == old(circuit).spec_public()
                &&& final(circuit).spec_private() == old(circuit).spec_private() + 1
                &&& final(circuit).spec_constraints() == old(circuit).spec_constraints() + 1
                &&& final(circuit).spec_satisfied() == (old(circuit).spec_satisfied()
                    && crate::field::mul_mod(
                    self.spec_value()@,
                    crate::field::inv_mod(self.spec_value()@),
                ) == 1)
            },
    {
        let mode = if self.is_constant() {
            Mode::Constant
        } else {
            Mode::Private
        };
        let inverse = self.value.pow(crate::field::P - 2);
        let result = BaseField::new(circuit, mode, inverse);
        if !self.is_constant() {
            circuit.enforce(self.value, inverse, Fp::one());
        }
        result
    }
}

/// A scalar-field circuit value.
#[derive(Clone, Copy, Debug, PartialEq, Eq, Structural)]
pub struct ScalarField {
    mode: Mode,
    value: u64,
}

impl ScalarField {
    /// The allocation mode.
    pub closed spec fn spec_mode(self) -> Mode {
        self.mode
    }

    /// The witness value.
    pub closed spec fn spec_value(self) -> u64 {
        self.value
    }

    /// Allocates a scalar of the given mode.
    pub fn new(circuit: &mut Circuit, mode: Mode, value: u64) -> (r: ScalarField)
        requires
            old(circuit).spec_constants() < usize::MAX,
            old(circuit).spec_public() < usize::MAX,
            old(circuit).spec_private() < usize::MAX,
        ensures
            r.spec_mode() == mode,
            r.spec_value() == value,
            final(circuit).spec_constants() == old(circuit).spec_constants() + (
            if mode is Constant { 1int } else { 0 }),
            final(circuit).spec_public() == old(circuit).spec_public() + (
            if mode is Public { 1int } else { 0 }),
            final(circuit).spec_private() == old(circuit).spec_private() + (
            if mode is Private { 1int } else { 0 }),
            final(circuit).spec_constraints() == old(circuit).spec_constraints(),
            final(circuit).spec_satisfied() == old(circuit).spec_satisfied(),
    {
        circuit.allocate(mode);
        ScalarField { mode, value }
    }

    /// The constant zero scalar.
    pub fn zero(circuit: &mut Circuit) -> (r: ScalarField)
        requires
            old(circuit).spec_constants() < usize::MAX,
            old(circuit).spec_public() < usize::MAX,
            old(circuit).spec_private() < usize::MAX,
        ensures
            r.spec_mode() is Constant,
            r.spec_value() == 0,
            final(circuit).spec_constants() == old(circuit).spec_constants() + 1,
            final(circuit).spec_public() == old(circuit).spec_public(),
            final(circuit).spec_private() == old(circuit).spec_private(),
            final(circuit).spec_constraints() == old(circuit).spec_constraints(),
            final(circuit).spec_satisfied() == old(circuit).spec_satisfied(),
    {
        Self::new(circuit, Mode::Constant, 0)
    }

    /// The constant one scalar.
    pub fn one(circuit: &mut Circuit) -> (r: ScalarField)
        requires
            old(circuit).spec_constants() < usize::MAX,
            old(circuit).spec_public() < usize::MAX,
            old(circuit).spec_private() < usize::MAX,
        ensures
            r.spec_mode() is Constant,
            r.spec_value() == 1,
            final(circuit).spec_constants() == old(circuit).spec_constants() + 1,
            final(circuit).spec_public() == old(circuit).spec_public(),
            final(circuit).spec_private() == old(circuit).spec_private(),
            final(circuit).spec_constraints() == old(circuit).spec_constraints(),
            final(circuit).spec_satisfied() == old(circuit).spec_satisfied(),
    {
        Self::new(circuit, Mode::Constant, 1)
    }

    /// The witness value.
    pub fn eject_value(&self) -> (r: u64)
        ensures
            r == self.spec_value(),
    {
        self.value
    }

    /// Equality of two scalars, as a boolean circuit value: constant
    /// for constants, otherwise an allocated private bit.
    pub fn is_eq(&self, other: &ScalarField, circuit: &mut Circuit) -> (r: Boolean)
        requires
            old(circuit).spec_constants() < usize::MAX,
            old(circuit).spec_public() < usize::MAX,
            old(circuit).spec_private() < usize::MAX,
            old(circuit).spec_constraints() + 2 <= usize::MAX,
        ensures
            r.spec_value() == (self.spec_value() == other.spec_value()),
            final(circuit).spec_satisfied() == old(circuit).spec_satisfied(),
    {
        let value = self.value == other.value;
        if self.is_constant() && other.is_constant() {
            Boolean { mode: Mode::Constant, value }
        } else {
            Boolean::new(circuit, Mode::Private, value)
        }
    }

    /// Whether this scalar is a constant.
    pub fn is_constant(&self) -> (r: bool)
        ensures
            r == self.spec_mode().spec_is_constant(),
    {
        self.mode.is_constant()
    }

    /// Whether this scalar is zero, as a boolean circuit value.
    pub fn is_zero(&self, circuit: &mut Circuit) -> (r: Boolean)
        requires
            old(circuit).spec_constants() + 1 < usize::MAX,
            old(circuit).spec_public() < usize::MAX,
            old(circuit).spec_private() < usize::MAX,
            old(circuit).spec_constraints() + 2 <= usize::MAX,
        ensures
            r.spec_value() == (self.spec_value() == 0),
            final(circuit).spec_satisfied() == old(circuit).spec_satisfied(),
    {
        let zero = Self::zero(circuit);
        self.is_eq(&zero, circuit)
    }

    /// Whether this scalar is one, as a boolean circuit value.
    pub fn is_one(&self, circuit: &mut Circuit) -> (r: Boolean)
        requires
            old(circuit).spec_constants() + 1 < usize::MAX,
            old(circuit).spec_public() < usize::MAX,
            old(circuit).spec_private() < usize::MAX,
            old(circuit).spec_constraints() + 2 <= usize::MAX,
        ensures
            r.spec_value() == (self.spec_value() == 1),
            final(circuit).spec_satisfied() == old(circuit).spec_satisfied(),
    {
        let one = Self::one(circuit);
        self.is_eq(&one, circuit)
    }
}

/// Whether both modes are constant.
pub open spec fn both_constant_modes(a: Mode, b: Mode) -> bool {
    a is Constant && b is Constant
}

/// The counters of two scopes agree.
pub open spec fn counters_unchanged(pre: Circuit, post: Circuit) -> bool {
    &&& post.spec_constants() == pre.spec_constants()
    &&& post.spec_public() == pre.spec_public()
    &&& post.spec_private() == pre.spec_private()
    &&& post.spec_constraints() == pre.spec_constraints()
}

/// A two-variable boolean gadget: one private witness and two
/// constraints, nothing else.
pub open spec fn gadget_counts(pre: Circuit, post: Circuit) -> bool {
    &&& post.spec_constants() == pre.spec_constants()
    &&& post.spec_public() == pre.spec_public()
    &&& post.spec_private() == pre.spec_private() + 1
    &&& post.spec_constraints() == pre.spec_constraints() + 2
}

/// The field embedding of a boolean.
fn bool_to_fp(b: bool) -> (r: Fp)
    ensures
        r@ == bit_value(b),
{
    if b {
        Fp::one()
    } else {
        Fp::zero()
    }
}

/// `(1 - a) * (1 - b) == 1 - (a || b)` over the field.
proof fn lemma_or_constraint_holds(a: bool, b: bool)
    ensures
        crate::field::mul_mod(
            crate::field::sub_mod(1, bit_value(a)),
            crate::field::sub_mod(1, bit_value(b)),
        ) == crate::field::sub_mod(1, bit_value(a || b)),
{
    crate::field::lemma_mul_mod_one(0);
    crate::field::lemma_mul_mod_one(1);
    if !a && !b {
        assert(crate::field::sub_mod(1, 0) == 1);
    } else {
        assert(crate::field::sub_mod(1, 1) == 0);
        if a {
            assert(0int * crate::field::sub_mod(1, bit_value(b)) == 0);
        } else {
            assert(crate::field::sub_mod(1, bit_value(a)) * 0 == 0);
        }
    }
}

/// `a * b == (a && b)` over the field.
proof fn lemma_and_constraint_holds(a: bool, b: bool)
    ensures
        crate::field::mul_mod(bit_value(a), bit_value(b)) == bit_value(a && b),
{
    crate::field::lemma_mul_mod_one(0);
    crate::field::lemma_mul_mod_one(1);
}

/// `c * (a - b) == w - b` over the field, for the selected `w`.
proof fn lemma_ternary_constraint_holds(c: bool, a: bool, b: bool)
    ensures
        crate::field::mul_mod(
            bit_value(c),
            crate::field::sub_mod(bit_value(a), bit_value(b)),
        ) == crate::field::sub_mod(
            bit_value(if c {
                a
            } else {
                b
            }),
            bit_value(b),
        ),
{
    let p = crate::field::P as int;
    if c {
        crate::field::lemma_mul_mod_one(crate::field::sub_mod(bit_value(a), bit_value(b)));
        vstd::arithmetic::div_mod::lemma_mod_twice(bit_value(a) - bit_value(b), p);
    } else {
        assert(0int * crate::field::sub_mod(bit_value(a), bit_value(b)) == 0);
        assert(crate::field::sub_mod(bit_value(b), bit_value(b)) == 0);
    }
}

} // verus!
