use vstd::prelude::*;
use crate::number::Number;

verus! {

/// One primitive placement or colour change.
///
/// Rotations and scales are pivoted at the centre of the unit cube, angles are
/// in degrees. A colour step adds its hue and multiplies saturation,
/// brightness and alpha.
#[derive(Clone, Copy, Debug, PartialEq, Eq, Structural)]
pub enum Step {
    Translate(Number, Number, Number),
    RotateX(Number),
    RotateY(Number),
    RotateZ(Number),
    Scale(Number, Number, Number),
    Color { hue: Number, sat: Number, brightness: Number, alpha: Number },
}

/// A composed placement: the product, left to right, of its steps.
///
/// Composition concatenates the step lists, so it is associative, and the
/// empty list is its identity. A renderer folds the steps into a 4x4 affine
/// matrix and hue/saturation/brightness/alpha scalars.
#[derive(Clone, Debug, PartialEq)]
pub struct Transform {
    pub steps: Vec<Step>,
}

impl View for Transform {
    type V = Seq<Step>;

    open spec fn view(&self) -> Seq<Step> {
        self.steps@
    }
}

/// `t` composed with itself `k` times.
pub open spec fn repeat(t: Seq<Step>, k: nat) -> Seq<Step>
    decreases k,
{
    if k == 0 {
        Seq::empty()
    } else {
        repeat(t, (k - 1) as nat) + t
    }
}

impl Transform {
    /// The identity: no step at all.
    pub fn identity() -> (r: Transform)
        ensures
            r@ == Seq::<Step>::empty(),
    {
        Transform { steps: Vec::new() }
    }

    fn single(step: Step) -> (r: Transform)
        ensures
            r@ == seq![step],
    {
        let mut steps: Vec<Step> = Vec::new();
        steps.push(step);
        proof {
            assert(steps@ =~= seq![step]);
        }
        Transform { steps }
    }

    /// A translation by `(x, y, z)`.
    pub fn translation(x: Number, y: Number, z: Number) -> (r: Transform)
        ensures
            r@ == seq![Step::Translate(x, y, z)],
    {
        Transform::single(Step::Translate(x, y, z))
    }

    /// A rotation by `angle` degrees about the x axis through the cube centre.
    pub fn rotate_x(angle: Number) -> (r: Transform)
        ensures
            r@ == seq![Step::RotateX(angle)],
    {
        Transform::single(Step::RotateX(angle))
    }

    /// A rotation by `angle` degrees about the y axis through the cube centre.
    pub fn rotate_y(angle: Number) -> (r: Transform)
        ensures
            r@ == seq![Step::RotateY(angle)],
    {
        Transform::single(Step::RotateY(angle))
    }

    /// A rotation by `angle` degrees about the z axis through the cube centre.
    pub fn rotate_z(angle: Number) -> (r: Transform)
        ensures
            r@ == seq![Step::RotateZ(angle)],
    {
        Transform::single(Step::RotateZ(angle))
    }

    /// A non-uniform scale about the cube centre.
    pub fn scale(x: Number, y: Number, z: Number) -> (r: Transform)
        ensures
            r@ == seq![Step::Scale(x, y, z)],
    {
        Transform::single(Step::Scale(x, y, z))
    }

    /// A pure colour change: add `hue`, multiply saturation and brightness.
    pub fn hsv(hue: Number, sat: Number, brightness: Number) -> (r: Transform)
        ensures
            r@ == seq![Step::Color { hue, sat, brightness, alpha: Number { mantissa: 1, scale: 0 } }],
    {
        Transform::single(Step::Color { hue, sat, brightness, alpha: Number::one() })
    }

    /// A copy of this transform.
    pub fn duplicate(&self) -> (r: Transform)
        ensures
            r@ == self@,
    {
        let mut steps: Vec<Step> = Vec::new();
        let mut i: usize = 0;
        while i < self.steps.len()
            invariant
                i <= self.steps@.len(),
                steps@ == self.steps@.subrange(0, i as int),
            decreases self.steps@.len() - i,
        {
            steps.push(self.steps[i]);
            i = i + 1;
            proof {
                assert(steps@ =~= self.steps@.subrange(0, i as int));
            }
        }
        proof {
            assert(steps@ =~= self.steps@);
        }
        Transform { steps }
    }

    /// `self ∘ other`: the effect of `other` applied after what `self` has
    /// accumulated.
    pub fn compose(&self, other: &Transform) -> (r: Transform)
        ensures
            r@ == self@ + other@,
    {
        let mut r = self.duplicate();
        let mut i: usize = 0;
        while i < other.steps.len()
            invariant
                i <= other.steps@.len(),
                r@ == self@ + other.steps@.subrange(0, i as int),
            decreases other.steps@.len() - i,
        {
            r.steps.push(other.steps[i]);
            i = i + 1;
            proof {
                assert(r@ =~= self@ + other.steps@.subrange(0, i as int));
            }
        }
        proof {
            assert(other.steps@.subrange(0, i as int) =~= other@);
        }
        r
    }
}

/// Composing with the identity, on either side, changes nothing.
pub proof fn lemma_compose_identity(t: Seq<Step>)
    ensures
        t + Seq::<Step>::empty() == t,
        Seq::<Step>::empty() + t == t,
{
    assert(t + Seq::<Step>::empty() =~= t);
    assert(Seq::<Step>::empty() + t =~= t);
}

/// Composition is associative.
pub proof fn lemma_compose_associative(a: Seq<Step>, b: Seq<Step>, c: Seq<Step>)
    ensures
        (a + b) + c == a + (b + c),
{
    assert((a + b) + c =~= a + (b + c));
}

} // verus!
