//! A verified computational-geometry library built around the
//! Bentley-Ottmann plane sweep, which reports the pairwise intersection
//! points of a set of line segments.
//!
//! Coordinates are fixed-point integers: every coordinate is a multiple of
//! one grid unit, held in an `i64`.  All geometric predicates (orientation,
//! containment, parallelism) are evaluated exactly in integer arithmetic,
//! and intersection points are rounded to the nearest grid point, which
//! plays the role of the decimal rounding a floating-point implementation
//! would use to damp numerical noise.
//!
//! After an intersection event the sweep re-keys its active segments a
//! nudge to the right of the event: three quarters of a grid unit, the
//! exact-rational stand-in for the tiny floating-point offset such sweeps
//! use, chosen to clear the half-unit rounding error of the event point
//! while staying inside the unit.  Neighbor queries right after a crossing
//! can therefore differ from an implementation whose offset is far smaller
//! than its rounding grain.
//!
//! The main datatypes are [`Point2D`](point2d::Point2D),
//! [`Line2D`](line2d::Line2D), [`LineSegment2D`](linesegment2d::LineSegment2D),
//! [`EventPoint`](eventpoint::EventPoint) and [`SweepLine`](sweepline::SweepLine);
//! the sweep itself is [`bently_ottmann`](tools2d::bently_ottmann).

pub mod point2d;

pub mod ratio;

pub mod line2d;

pub mod linesegment2d;

pub mod tools2d;

pub mod eventpoint;

pub mod sweepline;

pub mod point;

pub mod line;
