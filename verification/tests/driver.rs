//! Runs the library under a small driver that works the predictions out in real
//! arithmetic, and watches what has to hold between the events.

use hard_disc::random::Random;
use hard_disc::simulator::cell::{get_indices, CellPosition};
use hard_disc::simulator::debug::check_recognition;
use hard_disc::simulator::event::inter_particle_collision::InterParticleCollision;
use hard_disc::simulator::event::move_out_of_cell::MoveOutOfCell;
use hard_disc::simulator::event::move_to_neighbour::MoveToNeighbour;
use hard_disc::simulator::event::synchronisation::Synchronisation;
use hard_disc::simulator::event::wall_reflection::{BoundaryCondition, WallReflection};
use hard_disc::simulator::event::{Candidate, Event, EventType};
use hard_disc::simulator::extrema::Extrema;
use hard_disc::simulator::particle::from_p_to_c;
use hard_disc::simulator::{is_facing_wall, Domain, Heading, Simulator};

const NDIMS: usize = 2;
const RADIUS: f64 = 0.5;
const RESTCOEF: f64 = 0.99;
const GRAVITY: [f64; NDIMS] = [0., -0.5];
const NO_GRAVITY: [f64; NDIMS] = [0., 0.];

type Vector = [f64; NDIMS];

#[derive(Clone, Copy, Debug, PartialEq)]
enum Prediction {
    Collision {
        p_pos: Vector,
        q_pos: Vector,
        p_vel: Vector,
        q_vel: Vector,
        val: f64,
    },
    Move {
        pos: Vector,
    },
    Bounce {
        pos: Vector,
        vel: Vector,
        val: f64,
    },
    Barrier,
}

#[derive(Clone, Copy, Debug)]
struct Body {
    pos: Vector,
    vel: Vector,
    time: f64,
    val: f64,
}

struct World {
    lengths: Vector,
    sync_rate: f64,
    restitution: f64,
    gravity: Vector,
    bodies: Vec<Body>,
    kernel: Simulator<Prediction>,
    /// Every event that was processed, with its time.
    log: Vec<(f64, EventType, Prediction)>,
}

fn key(time: f64) -> u64 {
    assert!(0. <= time);
    (time + 0.).to_bits()
}

fn dot(a: Vector, b: Vector) -> f64 {
    a[0] * b[0] + a[1] * b[1]
}

fn get_new_pos(lengths: &Vector, pos: Vector, vel: Vector, dt: f64) -> Vector {
    let mut new_pos: Vector = [pos[0] + vel[0] * dt, pos[1] + vel[1] * dt];
    for dim in 0..NDIMS {
        if new_pos[dim] < 0. {
            new_pos[dim] += lengths[dim];
        } else if lengths[dim] < new_pos[dim] {
            new_pos[dim] -= lengths[dim];
        }
    }
    new_pos
}

fn correct_periodicity(dpos: f64, length: f64, cell_position: CellPosition) -> f64 {
    match cell_position {
        CellPosition::Centre => dpos,
        _ => {
            let mut best: f64 = dpos - length;
            for cand in [dpos, dpos + length].iter() {
                if cand.abs() < best.abs() {
                    best = *cand;
                }
            }
            best
        }
    }
}

fn find_minimum_distance(lengths: &Vector, pos0: Vector, pos1: Vector) -> f64 {
    let mut dist: f64 = 0.;
    for dim in 0..NDIMS {
        let dpos: f64 = pos1[dim] - pos0[dim];
        let d: f64 = dpos
            .abs()
            .min((dpos - lengths[dim]).abs())
            .min((dpos + lengths[dim]).abs());
        dist += d.powi(2);
    }
    dist.sqrt()
}

fn span(length: f64, ncells: usize, min: f64, max: f64) -> Extrema<usize> {
    let min: f64 = min / (length / ncells as f64);
    let max: f64 = max / (length / ncells as f64) + 1.;
    Extrema {
        min: min.max(0.) as usize,
        max: max.min(ncells as f64) as usize,
    }
}

fn overlapped_cells(lengths: &Vector, ncells: &[usize; NDIMS], pos: &Vector) -> Vec<usize> {
    let mut spans: [Vec<Extrema<usize>>; NDIMS] = [Vec::new(), Vec::new()];
    for dim in 0..NDIMS {
        let (length, n): (f64, usize) = (lengths[dim], ncells[dim]);
        let (min, max): (f64, f64) = (pos[dim] - RADIUS, pos[dim] + RADIUS);
        if min < 0. {
            spans[dim].push(span(length, n, 0., max));
            spans[dim].push(span(length, n, length + min, length));
        } else if length < max {
            spans[dim].push(span(length, n, 0., max - length));
            spans[dim].push(span(length, n, min, length));
        } else {
            spans[dim].push(span(length, n, min, max));
        }
    }
    from_p_to_c(ncells, &spans)
}

impl World {
    fn new(lengths: Vector, sync_rate: f64) -> World {
        let sizes: [usize; NDIMS] = [(lengths[0] / 3.) as usize, (lengths[1] / 3.) as usize];
        World {
            lengths,
            sync_rate,
            restitution: RESTCOEF,
            gravity: GRAVITY,
            bodies: Vec::new(),
            kernel: Simulator::new(sizes),
            log: Vec::new(),
        }
    }

    /// A box without walls, in which collisions lose nothing and nothing pulls.
    fn ideal(lengths: Vector, sync_rate: f64) -> World {
        let sizes: [usize; NDIMS] = [(lengths[0] / 3.) as usize, (lengths[1] / 3.) as usize];
        let domain = Domain {
            periodicities: [true, true],
        };
        World {
            lengths,
            sync_rate,
            restitution: 1.,
            gravity: NO_GRAVITY,
            bodies: Vec::new(),
            kernel: Simulator::with_domain(sizes, domain),
            log: Vec::new(),
        }
    }

    fn momentum(&self) -> Vector {
        let mut sum: Vector = [0.; NDIMS];
        for body in self.bodies.iter() {
            sum[0] += body.vel[0];
            sum[1] += body.vel[1];
        }
        sum
    }

    fn energy(&self) -> f64 {
        self.bodies.iter().map(|body| 0.5 * dot(body.vel, body.vel)).sum()
    }

    fn bound(&self, cell: usize, dim: usize) -> Extrema<f64> {
        let ncells: [usize; NDIMS] = self.kernel.get_ncells();
        let indices: Vec<usize> = get_indices(NDIMS, &ncells, cell);
        let width: f64 = self.lengths[dim] / ncells[dim] as f64;
        Extrema {
            min: width * indices[dim] as f64,
            max: width * (indices[dim] + 1) as f64,
        }
    }

    /// Whether a disc at `pos` would overlap one that is placed already.
    fn is_occupied(&self, pos: &Vector) -> bool {
        let cells = overlapped_cells(&self.lengths, &self.kernel.get_ncells(), pos);
        cells.iter().any(|&c| {
            self.kernel.get_cells()[c]
                .particles
                .iter()
                .any(|&p| find_minimum_distance(&self.lengths, *pos, self.bodies[p].pos) < 2. * RADIUS)
        })
    }

    fn place(&mut self, pos: Vector, vel: Vector, val: f64) -> usize {
        let cells = overlapped_cells(&self.lengths, &self.kernel.get_ncells(), &pos);
        let index: usize = self.kernel.init_particle(cells).unwrap();
        assert_eq!(index, self.bodies.len());
        self.bodies.push(Body {
            pos,
            vel,
            time: 0.,
            val,
        });
        index
    }

    fn start(&mut self) {
        let requests = self.kernel.init_events(key(0.), Prediction::Barrier).unwrap();
        self.schedule(&requests);
    }

    fn advance(&mut self, q: usize, time: f64) {
        let body: Body = self.bodies[q];
        self.bodies[q].pos = get_new_pos(&self.lengths, body.pos, body.vel, time - body.time);
        self.bodies[q].time = time;
    }

    fn collision(&self, cell: usize, p: usize, q: usize) -> Option<Event<Prediction>> {
        let (p_old, q_old): (Body, Body) = (self.bodies[p], self.bodies[q]);
        let positions = self.kernel.get_cells()[cell].positions;
        let mut dpos: Vector = [q_old.pos[0] - p_old.pos[0], q_old.pos[1] - p_old.pos[1]];
        let dvel: Vector = [q_old.vel[0] - p_old.vel[0], q_old.vel[1] - p_old.vel[1]];
        for dim in 0..NDIMS {
            dpos[dim] = correct_periodicity(dpos[dim], self.lengths[dim], positions[dim]);
        }
        let a: f64 = dot(dvel, dvel);
        let b: f64 = dot(dvel, dpos);
        let c: f64 = dot(dpos, dpos) - (2. * RADIUS).powi(2);
        let d: f64 = b.powi(2) - a * c;
        if a < f64::EPSILON || 0. <= b || c < 0. || d < 0. {
            return None;
        }
        let dt: f64 = 1. / a * (-d.sqrt() - b);
        if dt < 0. {
            return None;
        }
        let p_pos: Vector = get_new_pos(&self.lengths, p_old.pos, p_old.vel, dt);
        let q_pos: Vector = get_new_pos(&self.lengths, q_old.pos, q_old.vel, dt);
        let val: f64 = 0.5 * p_old.val + 0.5 * q_old.val;
        let mut normal: Vector = [q_pos[0] - p_pos[0], q_pos[1] - p_pos[1]];
        for dim in 0..NDIMS {
            normal[dim] =
                correct_periodicity(normal[dim], self.lengths[dim], positions[dim]) / (2. * RADIUS);
        }
        let along: f64 = (1. + self.restitution) * dot(dvel, normal);
        let mut p_vel: Vector = [0.; NDIMS];
        let mut q_vel: Vector = [0.; NDIMS];
        for dim in 0..NDIMS {
            let gvel: f64 =
                0.5 * p_old.vel[dim] + 0.5 * q_old.vel[dim] + (val - 0.5) * self.gravity[dim];
            let dvel: f64 = dvel[dim] - along * normal[dim];
            p_vel[dim] = gvel - 0.5 * dvel;
            q_vel[dim] = gvel + 0.5 * dvel;
        }
        Some(InterParticleCollision::schedule(
            key(p_old.time + dt),
            p,
            q,
            Prediction::Collision {
                p_pos,
                q_pos,
                p_vel,
                q_vel,
                val,
            },
        ))
    }

    /// The time after which the disc reaches the bound ahead from inside (`inner`)
    /// or has passed it.
    fn crossing(&self, cell: usize, dim: usize, p: usize, inner: bool) -> Option<(Heading, f64)> {
        let body: Body = self.bodies[p];
        let position: CellPosition = self.kernel.get_cells()[cell].positions[dim];
        let (pos, vel): (f64, f64) = (body.pos[dim], body.vel[dim]);
        if 0. == vel {
            return None;
        }
        let heading = if vel < 0. {
            Heading::Negative
        } else {
            Heading::Positive
        };
        if is_facing_wall(self.kernel.get_domain().periodicities[dim], position, heading) {
            return None;
        }
        let bound: Extrema<f64> = self.bound(cell, dim);
        let offset: f64 = if inner { RADIUS } else { -RADIUS };
        let dpos: f64 = match heading {
            Heading::Negative => bound.min + offset - pos,
            Heading::Positive => bound.max - offset - pos,
        };
        let dt: f64 = correct_periodicity(dpos, self.lengths[dim], position) / vel;
        if dt <= 0. {
            return None;
        }
        Some((heading, dt))
    }

    fn reflection(&self, cell: usize, dim: usize, p: usize) -> Option<Event<Prediction>> {
        let body: Body = self.bodies[p];
        let host = &self.kernel.get_cells()[cell];
        let (pos, vel): (f64, f64) = (body.pos[dim], body.vel[dim]);
        if 0. == vel {
            return None;
        }
        let heading = if vel < 0. {
            Heading::Negative
        } else {
            Heading::Positive
        };
        let domain = self.kernel.get_domain();
        if !is_facing_wall(domain.periodicities[dim], host.positions[dim], heading) {
            return None;
        }
        let bound: Extrema<f64> = self.bound(cell, dim);
        let dpos: f64 = match heading {
            Heading::Negative => bound.min + RADIUS - pos,
            Heading::Positive => bound.max - RADIUS - pos,
        };
        let dt: f64 = dpos / vel;
        if dt <= 0. {
            return None;
        }
        let mut new_vel: Vector = body.vel;
        new_vel[dim] = -vel;
        let val: f64 = match WallReflection::boundary_condition(dim, heading) {
            BoundaryCondition::Dirichlet(wall) => 0.5 * (wall as f64 + body.val),
            BoundaryCondition::Neumann => body.val,
        };
        let prediction = Prediction::Bounce {
            pos: get_new_pos(&self.lengths, body.pos, body.vel, dt),
            vel: new_vel,
            val,
        };
        let event =
            WallReflection::schedule(domain, key(body.time + dt), host, dim, p, heading, prediction);
        assert!(event.is_some());
        event
    }

    fn predict(&mut self, request: Candidate) -> Option<Event<Prediction>> {
        match request {
            Candidate::InterParticleCollision { cell, p, q } => {
                self.advance(q, self.bodies[p].time);
                self.collision(cell, p, q)
            }
            Candidate::MoveToNeighbour { cell, dim, p } => {
                let (heading, dt) = self.crossing(cell, dim, p, true)?;
                let body: Body = self.bodies[p];
                let pos: Vector = get_new_pos(&self.lengths, body.pos, body.vel, dt);
                let event = MoveToNeighbour::schedule(
                    self.kernel.get_domain(),
                    key(body.time + dt),
                    &self.kernel.get_cells()[cell],
                    dim,
                    p,
                    heading,
                    Prediction::Move { pos },
                );
                assert!(event.is_some());
                event
            }
            Candidate::MoveOutOfCell { cell, dim, p } => {
                let (heading, dt) = self.crossing(cell, dim, p, false)?;
                let body: Body = self.bodies[p];
                let pos: Vector = get_new_pos(&self.lengths, body.pos, body.vel, dt);
                let event = MoveOutOfCell::schedule(
                    self.kernel.get_domain(),
                    key(body.time + dt),
                    &self.kernel.get_cells()[cell],
                    dim,
                    p,
                    heading,
                    Prediction::Move { pos },
                );
                assert!(event.is_some());
                event
            }
            Candidate::WallReflection { cell, dim, p } => self.reflection(cell, dim, p),
            Candidate::Synchronisation { .. } => None,
        }
    }

    fn schedule(&mut self, requests: &[Candidate]) {
        for &request in requests.iter() {
            let cell: usize = match request {
                Candidate::InterParticleCollision { cell, .. } => cell,
                Candidate::MoveToNeighbour { cell, .. } => cell,
                Candidate::MoveOutOfCell { cell, .. } => cell,
                Candidate::WallReflection { cell, .. } => cell,
                Candidate::Synchronisation { cell } => cell,
            };
            if let Some(event) = self.predict(request) {
                // the library takes every event that the predictions yield
                assert_eq!(self.kernel.insert_event(event, cell), None);
            }
        }
    }

    /// Processes the events up to and including the next barrier.
    fn integrate(&mut self) -> f64 {
        loop {
            // the library never finds a fault in what the predictions yield
            let (event, requests) = self.kernel.integrate().unwrap();
            let time: f64 = f64::from_bits(event.time);
            self.log.push((time, event.eventtype, event.prediction));
            match (event.eventtype, event.prediction) {
                (
                    EventType::InterParticleCollision(e),
                    Prediction::Collision {
                        p_pos,
                        q_pos,
                        p_vel,
                        q_vel,
                        val,
                    },
                ) => {
                    self.bodies[e.p_old] = Body {
                        pos: p_pos,
                        vel: p_vel,
                        time,
                        val,
                    };
                    self.bodies[e.q_old] = Body {
                        pos: q_pos,
                        vel: q_vel,
                        time,
                        val,
                    };
                }
                (EventType::MoveToNeighbour(e), Prediction::Move { pos }) => {
                    self.bodies[e.p_old].pos = pos;
                    self.bodies[e.p_old].time = time;
                }
                (EventType::MoveOutOfCell(e), Prediction::Move { pos }) => {
                    self.bodies[e.p_old].pos = pos;
                    self.bodies[e.p_old].time = time;
                }
                (EventType::WallReflection(e), Prediction::Bounce { pos, vel, val }) => {
                    self.bodies[e.p_old] = Body {
                        pos,
                        vel,
                        time,
                        val,
                    };
                }
                (EventType::Synchronisation(e), Prediction::Barrier) => {
                    for q in 0..self.bodies.len() {
                        self.advance(q, time);
                    }
                    let next =
                        Synchronisation::schedule(key(time + self.sync_rate), e.cell, Prediction::Barrier);
                    assert_eq!(self.kernel.insert_event(next, e.cell), None);
                    return time;
                }
                _ => panic!("an event carries the prediction of another kind"),
            }
            self.schedule(&requests);
        }
    }

    /// What has to hold between any two events.
    fn check(&self) {
        let particles = self.kernel.get_particles();
        let cells = self.kernel.get_cells();
        for particle in particles.iter() {
            // a disc overlaps one, two or four cells
            assert!(matches!(particle.cells.len(), 1 | 2 | 4));
            for cell in cells.iter() {
                let listed: bool = cell.particles.contains(&particle.index);
                assert_eq!(listed, particle.cells.contains(&cell.index));
                assert_eq!(listed, check_recognition(particle, cell));
            }
        }
        for cell in cells.iter() {
            for n in 1..cell.events.len() {
                assert!(cell.events[n - 1].time <= cell.events[n].time);
            }
            for event in cell.events.iter() {
                assert!(self.kernel.get_time() <= event.time);
                assert!(event.eventtype.is_hosted_by(cell, cells.len()));
                for particle in particles.iter() {
                    if event.eventtype.refers_to(particle.index) {
                        assert!(cell.particles.contains(&particle.index));
                    }
                }
            }
        }
    }

    /// What has to hold once a barrier has brought the particles to one time.
    fn check_synchronised(&self, time: f64) {
        let ncells: [usize; NDIMS] = self.kernel.get_ncells();
        for (p, body) in self.bodies.iter().enumerate() {
            assert_eq!(body.time, time);
            // the membership is what the position tells
            let mut expected = overlapped_cells(&self.lengths, &ncells, &body.pos);
            let mut found = self.kernel.get_particles()[p].cells.clone();
            expected.sort();
            found.sort();
            assert_eq!(found, expected);
            for other in self.bodies[p + 1..].iter() {
                let dist: f64 = find_minimum_distance(&self.lengths, body.pos, other.pos);
                assert!(-1.0e-9 < dist - 2. * RADIUS);
            }
        }
    }
}

#[test]
fn two_particles_meet_head_on() {
    let mut world = World::new([16., 16.], 1.);
    world.place([4., 8.], [1., 0.], 0.5);
    world.place([12., 8.], [-1., 0.], 0.5);
    world.start();
    for window in 0..6 {
        assert_eq!(world.integrate(), window as f64);
        world.check();
        world.check_synchronised(window as f64);
    }
    let collisions: Vec<&(f64, EventType, Prediction)> = world
        .log
        .iter()
        .filter(|entry| matches!(entry.1, EventType::InterParticleCollision(_)))
        .collect();
    assert_eq!(collisions.len(), 1);
    let (time, eventtype, prediction) = *collisions[0];
    assert!((time - 3.5).abs() < 1.0e-12);
    assert_eq!(
        eventtype,
        EventType::InterParticleCollision(InterParticleCollision { p_old: 0, q_old: 1 })
    );
    match prediction {
        Prediction::Collision { p_vel, q_vel, val, .. } => {
            assert!((p_vel[0] + 0.99).abs() < 1.0e-12);
            assert!((q_vel[0] - 0.99).abs() < 1.0e-12);
            assert_eq!((p_vel[1], q_vel[1]), (0., 0.));
            assert_eq!(val, 0.5);
        }
        _ => panic!("the collision predicts a collision"),
    }
    // after the collision the particles part again
    assert!(world.bodies[0].vel[0] < 0.);
    assert!(0. < world.bodies[1].vel[0]);
    // the times of the events never went back
    for n in 1..world.log.len() {
        assert!(world.log[n - 1].0 <= world.log[n].0);
    }
}

#[test]
fn a_particle_passes_the_seam() {
    let mut world = World::new([16., 16.], 1.);
    let p: usize = world.place([15.6, 8.], [1., 0.], 0.);
    // the disc overlaps the last and the first cell of the third row
    assert_eq!(world.kernel.get_particles()[p].cells, vec![10, 14]);
    world.start();
    assert_eq!(world.integrate(), 0.);
    assert_eq!(world.integrate(), 1.);
    world.check();
    world.check_synchronised(1.);
    assert!((world.bodies[p].pos[0] - 0.6).abs() < 1.0e-12);
    assert_eq!(world.bodies[p].pos[1], 8.);
    assert_eq!(world.kernel.get_particles()[p].cells, vec![10]);
    // it left the last cell when the disc had passed the seam
    let exit = world
        .log
        .iter()
        .find(|entry| matches!(entry.1, EventType::MoveOutOfCell(_)))
        .unwrap();
    assert!((exit.0 - 0.9).abs() < 1.0e-12);
    assert_eq!(
        exit.1,
        EventType::MoveOutOfCell(MoveOutOfCell { cell: 14, p_old: p })
    );
}

#[test]
fn a_window_ends_at_the_time_of_the_barrier() {
    let mut world = World::new([16., 16.], 1.);
    world.place([2., 3.], [0.6, 0.25], 1.);
    world.place([9., 9.], [-0.4, 0.9], 0.);
    world.place([12., 2.5], [0.1, -0.8], 0.);
    world.start();
    assert_eq!(world.integrate(), 0.);
    assert_eq!(world.integrate(), 1.);
    for body in world.bodies.iter() {
        assert_eq!(body.time, 1.);
    }
    assert_eq!(f64::from_bits(world.kernel.get_time()), 1.);
    world.check();
    world.check_synchronised(1.);
}

#[test]
fn a_crowd_keeps_its_order() {
    let lengths: Vector = [16., 16.];
    let mut world = World::new(lengths, 1.);
    let mut random = Random::new(20_240_229);
    let mut draw = |min: f64, max: f64| -> f64 {
        min + (max - min) * (random.next_u32() as f64 / u32::MAX as f64)
    };
    while world.bodies.len() < 60 {
        let pos: Vector = [draw(0., lengths[0]), draw(RADIUS, lengths[1] - RADIUS)];
        if world.is_occupied(&pos) {
            continue;
        }
        let vel: Vector = [draw(-1., 1.), draw(-1., 1.)];
        let val: f64 = if pos[0] / lengths[0] < pos[1] / lengths[1] {
            1.
        } else {
            0.
        };
        world.place(pos, vel, val);
    }
    world.check();
    world.check_synchronised(0.);
    world.start();
    for window in 0..30 {
        assert_eq!(world.integrate(), window as f64);
        world.check();
        world.check_synchronised(window as f64);
    }
    // the run saw events of every kind
    let seen = |kind: fn(&EventType) -> bool| world.log.iter().any(|entry| kind(&entry.1));
    assert!(seen(|e| matches!(e, EventType::InterParticleCollision(_))));
    assert!(seen(|e| matches!(e, EventType::MoveToNeighbour(_))));
    assert!(seen(|e| matches!(e, EventType::MoveOutOfCell(_))));
    assert!(seen(|e| matches!(e, EventType::WallReflection(_))));
    for n in 1..world.log.len() {
        assert!(world.log[n - 1].0 <= world.log[n].0);
    }
    // the scalar values stay between those of the walls
    for body in world.bodies.iter() {
        assert!(0. <= body.val && body.val <= 1.);
    }
}

#[test]
fn an_ideal_crowd_keeps_momentum_and_energy() {
    let lengths: Vector = [16., 16.];
    let mut world = World::ideal(lengths, 1.);
    assert_eq!(world.kernel.get_domain().periodicities, [true, true]);
    let mut random = Random::new(1_234_567);
    let mut draw = |min: f64, max: f64| -> f64 {
        min + (max - min) * (random.next_u32() as f64 / u32::MAX as f64)
    };
    while world.bodies.len() < 50 {
        let pos: Vector = [draw(0., lengths[0]), draw(0., lengths[1])];
        if world.is_occupied(&pos) {
            continue;
        }
        let vel: Vector = [draw(-1., 1.), draw(-1., 1.)];
        world.place(pos, vel, 0.5);
    }
    // take the mean velocity out
    let mean: Vector = world.momentum();
    let count: f64 = world.bodies.len() as f64;
    for body in world.bodies.iter_mut() {
        body.vel = [body.vel[0] - mean[0] / count, body.vel[1] - mean[1] / count];
    }
    let energy: f64 = world.energy();
    assert!(world.momentum()[0].abs() < 1.0e-12 && world.momentum()[1].abs() < 1.0e-12);
    world.start();
    for window in 0..1000 {
        assert_eq!(world.integrate(), window as f64);
        world.check();
        world.check_synchronised(window as f64);
        let momentum: Vector = world.momentum();
        assert!(momentum[0].abs() < 1.0e-9 && momentum[1].abs() < 1.0e-9);
        assert!((world.energy() - energy).abs() < 1.0e-9);
    }
    // there are collisions, and no wall to bounce off
    let seen = |kind: fn(&EventType) -> bool| world.log.iter().any(|entry| kind(&entry.1));
    assert!(seen(|e| matches!(e, EventType::InterParticleCollision(_))));
    assert!(!seen(|e| matches!(e, EventType::WallReflection(_))));
}
