# eskf

A quaternion error-state Kalman filter, verified with [Verus](https://github.com/verus-lang/verus).

The filter fuses a strapdown IMU with GPS position and velocity, a barometer, a magnetometer, a laser
altimeter, radio ranging, optical flow, Doppler velocity and attitude fixes. Around it stand a
simulator with an analytic trajectory, the metrics that weigh the estimation error by the reported
covariance (the NEES), campaigns of scored flights, a text format for recorded flights with its
replay, and a live session for a viewer.

## Layout

```
src/            the library; every function has a contract that Verus proves
  scalar.rs     the numbers: a trait, and names for what its operations return
  linalg.rs     fixed-size matrices; linalg/ holds 3-vectors and the Gauss-Jordan inverse
  quat.rs       unit quaternions and the body-frame error
  filter.rs     prediction, the nine updates, injection and reset
  rng.rs, trajectory.rs, sim.rs      noise, truth and sensors
  metrics.rs, flight.rs, campaign.rs, series.rs      scoring
  decimal.rs, dataset.rs      flights as text
  narrow.rs, session.rs       the viewer's session
  exact.rs      what holds in exact arithmetic
tests/          the library run on hardware floats
app/            the command line, the floats, and the browser bindings
```

## What is proved

The library is generic in its scalar. A contract says which operations, in which order, make up an
answer: `functional::<T>() ==> result == spec(arguments)`, where `functional` says no more than that
an operation gives the same result for the same operands. It assumes no algebra, and no particular
rounding. Of hardware floats it asks that the sine, the logarithm and their like be repeatable, as
addition and its like are: a platform on which they are not is outside these contracts.

What does need algebra is proved under `exact`, which takes the operations to be those of the real
numbers. Under it the very expressions that the code evaluates are shown, among other things, to

- keep the covariance symmetric and positive definite through every prediction, update and reset, and
  the orientation a unit quaternion, for a whole flight;
- return nothing but the inverse of a matrix, nothing at all for a singular one, and the inverse
  whenever its columns stand apart, however they are scaled, so that every correction with noise to
  speak of is applied;
- undo the exponential by the logarithm, the logarithm by the exponential, and a rotation matrix by its
  quaternion, the first two up to the cube of an angle that is taken for small;
- reach the truth when the error of an estimate is folded into it;
- compose rotations by the quaternion product;
- never let a position, velocity or altitude fix take the estimate away from the fix, nor make the
  filter less certain of position, velocity or the biases;
- use Jacobians that are the first-order terms of their measurements;
- move the simulated aircraft with the velocity and acceleration that are the derivatives of its
  position, nose along the velocity and lift leaning into the turn.

## Running

```
eskf check                    # forty flights, NEES against its chi-squared band
eskf scenarios                # RMSE by sensor and failure scenario
eskf record 15 flight.csv     # record a flight
eskf replay flight.csv        # replay and score it
eskf plotdata figures         # the series behind the plots
```
